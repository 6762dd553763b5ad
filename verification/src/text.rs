//! Character sequences: the specifications of the string operations that the
//! filters rely on (`str::lines`, `find`, `contains`, `starts_with`, `trim`,
//! `join`, decimal formatting), and verified implementations of them.

use vstd::prelude::*;

verus! {

// ---------------------------------------------------------------------------
// Specifications
// ---------------------------------------------------------------------------

/// `pat` occurs in `s` at index `k`.
pub open spec fn occurs_at(s: Seq<char>, pat: Seq<char>, k: int) -> bool {
    &&& 0 <= k
    &&& k + pat.len() <= s.len()
    &&& s.subrange(k, k + pat.len()) == pat
}

/// The first index at which `pat` occurs in `s`, as `str::find` reports it
/// (counted in characters rather than bytes).
pub open spec fn find_seq(s: Seq<char>, pat: Seq<char>) -> Option<int>
    decreases s.len(),
{
    if pat.len() == 0 {
        Some(0)
    } else if s.len() < pat.len() {
        None
    } else if s.take(pat.len() as int) == pat {
        Some(0)
    } else {
        match find_seq(s.drop_first(), pat) {
            Some(i) => Some(i + 1),
            None => None,
        }
    }
}

/// `s` contains `pat` (`str::contains`).
pub open spec fn contains_seq(s: Seq<char>, pat: Seq<char>) -> bool {
    find_seq(s, pat) is Some
}

/// `s` begins with `pat` (`str::starts_with`).
pub open spec fn starts_with_seq(s: Seq<char>, pat: Seq<char>) -> bool {
    pat.len() <= s.len() && s.take(pat.len() as int) == pat
}

/// The first index of the character `c` in `s`.
pub open spec fn index_of(s: Seq<char>, c: char) -> Option<int> {
    find_seq(s, seq![c])
}

/// A line as `str::lines` yields it: one trailing carriage return is dropped.
pub open spec fn strip_cr(t: Seq<char>) -> Seq<char> {
    if t.len() > 0 && t.last() == '\r' {
        t.drop_last()
    } else {
        t
    }
}

/// The lines of `s`, exactly as `str::lines` yields them: the text is cut at
/// each `'\n'`, a `'\r'` right before a `'\n'` is dropped, and a final line
/// ending adds no empty line.
pub open spec fn lines_of(s: Seq<char>) -> Seq<Seq<char>>
    decreases s.len(),
{
    if s.len() == 0 {
        seq![]
    } else {
        match index_of(s, '\n') {
            Some(i) => {
                proof {
                    lemma_find_seq(s, seq!['\n']);
                }
                seq![strip_cr(s.take(i))] + lines_of(s.skip(i + 1))
            },
            None => seq![s],
        }
    }
}

/// Unicode `White_Space`, the property that `char::is_whitespace` tests.
pub open spec fn is_ws(c: char) -> bool {
    let u = c as u32;
    ||| 0x09 <= u <= 0x0D
    ||| u == 0x20
    ||| u == 0x85
    ||| u == 0xA0
    ||| u == 0x1680
    ||| 0x2000 <= u <= 0x200A
    ||| u == 0x2028
    ||| u == 0x2029
    ||| u == 0x202F
    ||| u == 0x205F
    ||| u == 0x3000
}

/// `s` without its leading whitespace.
pub open spec fn trim_start_seq(s: Seq<char>) -> Seq<char>
    decreases s.len(),
{
    if s.len() > 0 && is_ws(s[0]) {
        trim_start_seq(s.drop_first())
    } else {
        s
    }
}

/// `s` without its trailing whitespace.
pub open spec fn trim_end_seq(s: Seq<char>) -> Seq<char>
    decreases s.len(),
{
    if s.len() > 0 && is_ws(s.last()) {
        trim_end_seq(s.drop_last())
    } else {
        s
    }
}

/// `s` without leading and trailing whitespace (`str::trim`).
pub open spec fn trim_seq(s: Seq<char>) -> Seq<char> {
    trim_end_seq(trim_start_seq(s))
}

/// The parts joined with `sep` between each two neighbours (`[_]::join`).
pub open spec fn join_seq(parts: Seq<Seq<char>>, sep: Seq<char>) -> Seq<char>
    decreases parts.len(),
{
    if parts.len() == 0 {
        seq![]
    } else if parts.len() == 1 {
        parts[0]
    } else {
        join_seq(parts.drop_last(), sep) + sep + parts.last()
    }
}

/// The decimal digit for `d < 10`.
pub open spec fn digit_char(d: nat) -> char {
    if d == 0 {
        '0'
    } else if d == 1 {
        '1'
    } else if d == 2 {
        '2'
    } else if d == 3 {
        '3'
    } else if d == 4 {
        '4'
    } else if d == 5 {
        '5'
    } else if d == 6 {
        '6'
    } else if d == 7 {
        '7'
    } else if d == 8 {
        '8'
    } else {
        '9'
    }
}

/// `n` written in decimal, as `format!("{}", n)` writes it.
pub open spec fn decimal(n: nat) -> Seq<char>
    decreases n,
{
    if n < 10 {
        seq![digit_char(n)]
    } else {
        decimal(n / 10).push(digit_char(n % 10))
    }
}

/// The views of a sequence of character vectors.
pub open spec fn views(v: Seq<Vec<char>>) -> Seq<Seq<char>> {
    v.map_values(|x: Vec<char>| x@)
}

/// The number of bytes of the UTF-8 encoding of `s` (`str::len`).
pub open spec fn byte_len(s: Seq<char>) -> nat {
    vstd::utf8::encode_utf8(s).len()
}

// ---------------------------------------------------------------------------
// Lemmas
// ---------------------------------------------------------------------------

/// `find_seq` gives the first occurrence, and `None` only when there is none.
pub proof fn lemma_find_seq(s: Seq<char>, pat: Seq<char>)
    ensures
        match find_seq(s, pat) {
            Some(i) => occurs_at(s, pat, i) && forall|k: int|
                0 <= k < i ==> !#[trigger] occurs_at(s, pat, k),
            None => forall|k: int| !#[trigger] occurs_at(s, pat, k),
        },
    decreases s.len(),
{
    if pat.len() == 0 {
        assert(s.subrange(0, 0) =~= pat);
    } else if s.len() < pat.len() {
    } else if s.take(pat.len() as int) == pat {
        assert(s.subrange(0, pat.len() as int) =~= s.take(pat.len() as int));
    } else {
        let t = s.drop_first();
        lemma_find_seq(t, pat);
        assert(!occurs_at(s, pat, 0)) by {
            assert(s.subrange(0, pat.len() as int) =~= s.take(pat.len() as int));
        }
        assert forall|k: int| 0 <= k implies (occurs_at(s, pat, k + 1) <==> #[trigger] occurs_at(
            t,
            pat,
            k,
        )) by {
            if k + 1 + pat.len() <= s.len() {
                assert(s.subrange(k + 1, k + 1 + pat.len()) =~= t.subrange(k, k + pat.len()));
            }
        }
        match find_seq(t, pat) {
            Some(i) => {
                assert(occurs_at(s, pat, i + 1));
                assert forall|k: int| 0 <= k < i + 1 implies !#[trigger] occurs_at(s, pat, k) by {
                    if k > 0 {
                        assert(occurs_at(s, pat, (k - 1) + 1) == occurs_at(t, pat, k - 1));
                    }
                }
            },
            None => {
                assert forall|k: int| !#[trigger] occurs_at(s, pat, k) by {
                    if k > 0 {
                        assert(occurs_at(s, pat, (k - 1) + 1) == occurs_at(t, pat, k - 1));
                    }
                }
            },
        }
    }
}

/// A one-character pattern occurs exactly where that character stands.
pub proof fn lemma_occurs_single(s: Seq<char>, c: char, k: int)
    ensures
        occurs_at(s, seq![c], k) <==> (0 <= k < s.len() && s[k] == c),
{
    if 0 <= k < s.len() {
        if s[k] == c {
            assert(s.subrange(k, k + 1) =~= seq![c]);
        } else {
            assert(s.subrange(k, k + 1)[0] != seq![c][0]);
        }
    }
}

/// The first index of `c` is `j` when `c` stands at `j` and nowhere before.
pub proof fn lemma_index_of_at(s: Seq<char>, c: char, j: int)
    requires
        0 <= j < s.len(),
        s[j] == c,
        forall|k: int| 0 <= k < j ==> s[k] != c,
    ensures
        index_of(s, c) == Some(j),
{
    lemma_find_seq(s, seq![c]);
    lemma_occurs_single(s, c, j);
    match index_of(s, c) {
        Some(i) => {
            lemma_occurs_single(s, c, i);
            if i < j {
            } else if i > j {
                assert(!occurs_at(s, seq![c], j));
            }
        },
        None => {
            assert(!occurs_at(s, seq![c], j));
        },
    }
}

/// There is no index of `c` when `c` does not occur.
pub proof fn lemma_index_of_none(s: Seq<char>, c: char)
    requires
        forall|k: int| 0 <= k < s.len() ==> s[k] != c,
    ensures
        index_of(s, c) is None,
{
    lemma_find_seq(s, seq![c]);
    if let Some(i) = index_of(s, c) {
        lemma_occurs_single(s, c, i);
    }
}

/// What `index_of` reports holds of the sequence.
pub proof fn lemma_index_of(s: Seq<char>, c: char)
    ensures
        match index_of(s, c) {
            Some(i) => 0 <= i < s.len() && s[i] == c && forall|k: int|
                0 <= k < i ==> s[k] != c,
            None => forall|k: int| 0 <= k < s.len() ==> s[k] != c,
        },
{
    lemma_find_seq(s, seq![c]);
    match index_of(s, c) {
        Some(i) => {
            lemma_occurs_single(s, c, i);
            assert forall|k: int| 0 <= k < i implies s[k] != c by {
                lemma_occurs_single(s, c, k);
            }
        },
        None => {
            assert forall|k: int| 0 <= k < s.len() implies s[k] != c by {
                lemma_occurs_single(s, c, k);
            }
        },
    }
}

/// Cutting the first line off: `lines_of` of a text that holds a `'\n'` at `j`,
/// and none before, is the first line followed by the lines of the rest.
pub proof fn lemma_lines_cut(s: Seq<char>, j: int)
    requires
        0 <= j < s.len(),
        s[j] == '\n',
        forall|k: int| 0 <= k < j ==> s[k] != '\n',
    ensures
        lines_of(s) == seq![strip_cr(s.take(j))] + lines_of(s.skip(j + 1)),
{
    lemma_index_of_at(s, '\n', j);
}

/// A text without `'\n'` is one line, or none when it is empty.
pub proof fn lemma_lines_last(s: Seq<char>)
    requires
        forall|k: int| 0 <= k < s.len() ==> s[k] != '\n',
    ensures
        lines_of(s) == (if s.len() == 0 {
            Seq::<Seq<char>>::empty()
        } else {
            seq![s]
        }),
{
    lemma_index_of_none(s, '\n');
}

/// Dropping whitespace from the front up to the first other character.
pub proof fn lemma_trim_start(s: Seq<char>, a: int)
    requires
        0 <= a <= s.len(),
        forall|k: int| 0 <= k < a ==> is_ws(s[k]),
        a == s.len() || !is_ws(s[a]),
    ensures
        trim_start_seq(s) == s.skip(a),
    decreases a,
{
    if a == 0 {
        assert(s.skip(0) =~= s);
    } else {
        lemma_trim_start(s.drop_first(), a - 1);
        assert(s.drop_first().skip(a - 1) =~= s.skip(a));
    }
}

/// Dropping whitespace from the back down to the last other character.
pub proof fn lemma_trim_end(s: Seq<char>, b: int)
    requires
        0 <= b <= s.len(),
        forall|k: int| b <= k < s.len() ==> is_ws(s[k]),
        b == 0 || !is_ws(s[b - 1]),
    ensures
        trim_end_seq(s) == s.take(b),
    decreases s.len() - b,
{
    if b == s.len() {
        assert(s.take(b) =~= s);
    } else {
        lemma_trim_end(s.drop_last(), b);
        assert(s.drop_last().take(b) =~= s.take(b));
    }
}

/// What is left after dropping leading whitespace does not start with
/// whitespace.
pub proof fn lemma_trim_start_front(s: Seq<char>)
    ensures
        trim_start_seq(s).len() > 0 ==> !is_ws(trim_start_seq(s)[0]),
    decreases s.len(),
{
    if s.len() > 0 && is_ws(s[0]) {
        lemma_trim_start_front(s.drop_first());
    }
}

/// Dropping trailing whitespace keeps a prefix that does not end with
/// whitespace.
pub proof fn lemma_trim_end_back(s: Seq<char>)
    ensures
        trim_end_seq(s) == s.take(trim_end_seq(s).len() as int),
        trim_end_seq(s).len() <= s.len(),
        trim_end_seq(s).len() > 0 ==> !is_ws(trim_end_seq(s).last()),
    decreases s.len(),
{
    if s.len() > 0 && is_ws(s.last()) {
        lemma_trim_end_back(s.drop_last());
        let t = trim_end_seq(s.drop_last());
        assert(s.drop_last().take(t.len() as int) =~= s.take(t.len() as int));
    } else {
        assert(s.take(s.len() as int) =~= s);
    }
}

/// Trimming a trimmed text changes nothing.
pub proof fn lemma_trim_idempotent(s: Seq<char>)
    ensures
        trim_seq(trim_seq(s)) == trim_seq(s),
{
    let y = trim_start_seq(s);
    let x = trim_end_seq(y);
    lemma_trim_start_front(s);
    lemma_trim_end_back(y);
    if x.len() > 0 {
        assert(x[0] == y[0]);
        assert(trim_start_seq(x) == x);
        assert(trim_end_seq(x) == x);
    } else {
        assert(trim_start_seq(x) == x);
        assert(trim_end_seq(x) == x);
    }
}

/// A character has a one-byte UTF-8 encoding exactly when it is ASCII.
pub proof fn lemma_scalar_width(c: char)
    ensures
        vstd::utf8::encode_scalar(c as u32).len() >= 1,
        vstd::utf8::encode_scalar(c as u32).len() == 1 <==> (c as u32) < 0x80,
{
}

/// Each character takes at least one byte.
pub proof fn lemma_byte_len_ge(s: Seq<char>)
    ensures
        byte_len(s) >= s.len(),
    decreases s.len(),
{
    if s.len() > 0 {
        lemma_scalar_width(s[0]);
        lemma_byte_len_ge(s.drop_first());
    }
}

/// A text has at least two bytes when it has two characters, or one that is
/// not ASCII.
pub proof fn lemma_two_bytes(s: Seq<char>)
    ensures
        byte_len(s) >= 2 <==> (s.len() >= 2 || (s.len() == 1 && (s[0] as u32) >= 0x80)),
{
    if s.len() > 0 {
        lemma_scalar_width(s[0]);
        lemma_byte_len_ge(s.drop_first());
        assert(vstd::utf8::encode_utf8(s) == vstd::utf8::encode_scalar(s[0] as u32)
            + vstd::utf8::encode_utf8(s.drop_first()));
        if s.len() == 1 {
            assert(s.drop_first().len() == 0);
            assert(vstd::utf8::encode_utf8(s.drop_first()).len() == 0);
        }
    }
}

// ---------------------------------------------------------------------------
// Executable operations
// ---------------------------------------------------------------------------

/// Appends one character to a `String` (`String::push`).
#[verifier::external_body]
fn push_char(s: &mut String, c: char)
    ensures
        final(s)@ == old(s)@.push(c),
{
    s.push(c);
}

/// The characters of a string slice, in order.
pub fn chars_of(s: &str) -> (res: Vec<char>)
    ensures
        res@ == s@,
{
    let mut res: Vec<char> = Vec::new();
    for c in it: s.chars()
        invariant
            res@ == it.seq().take(it.index() as int),
    {
        res.push(c);
    }
    res
}

/// A `String` holding the given characters.
pub fn string_of(v: &[char]) -> (res: String)
    ensures
        res@ == v@,
{
    let mut res = String::new();
    let n = v.len();
    for i in 0..n
        invariant
            n == v@.len(),
            res@ == v@.take(i as int),
    {
        push_char(&mut res, v[i]);
        assert(v@.take(i + 1) == v@.take(i as int).push(v@[i as int]));
    }
    assert(v@.take(n as int) == v@);
    res
}

/// Appends the characters of `src` to `dst`.
pub fn push_all(dst: &mut Vec<char>, src: &[char])
    ensures
        final(dst)@ == old(dst)@ + src@,
{
    let n = src.len();
    for i in 0..n
        invariant
            n == src@.len(),
            dst@ == old(dst)@ + src@.take(i as int),
    {
        dst.push(src[i]);
        assert(src@.take(i + 1) == src@.take(i as int).push(src@[i as int]));
    }
    assert(src@.take(n as int) == src@);
}

/// The characters of `s` from index `i` up to `j`.
pub fn slice_chars(s: &[char], i: usize, j: usize) -> (res: Vec<char>)
    requires
        i <= j <= s@.len(),
    ensures
        res@ == s@.subrange(i as int, j as int),
{
    let mut res: Vec<char> = Vec::new();
    let mut k = i;
    while k < j
        invariant
            i <= k <= j <= s@.len(),
            res@ == s@.subrange(i as int, k as int),
        decreases j - k,
    {
        res.push(s[k]);
        assert(s@.subrange(i as int, k + 1) == s@.subrange(i as int, k as int).push(s@[k as int]));
        k = k + 1;
    }
    res
}

/// Whether `pat` occurs in `s` at index `k`.
fn occurs_at_exec(s: &[char], pat: &[char], k: usize) -> (res: bool)
    requires
        k + pat@.len() <= s@.len(),
    ensures
        res == occurs_at(s@, pat@, k as int),
{
    let p = pat.len();
    let n = s.len();
    let mut j: usize = 0;
    while j < p
        invariant
            j <= p == pat@.len(),
            n == s@.len(),
            k + p <= s@.len(),
            forall|m: int| 0 <= m < j ==> s@[k + m] == pat@[m],
        decreases p - j,
    {
        if s[k + j] != pat[j] {
            assert(s@.subrange(k as int, k + p)[j as int] != pat@[j as int]);
            return false;
        }
        j = j + 1;
    }
    assert(s@.subrange(k as int, k + p) =~= pat@);
    true
}

/// The first index of `pat` in `s` (`str::find`).
pub fn find(s: &[char], pat: &[char]) -> (res: Option<usize>)
    ensures
        match res {
            Some(i) => find_seq(s@, pat@) == Some(i as int),
            None => find_seq(s@, pat@) is None,
        },
{
    proof {
        lemma_find_seq(s@, pat@);
    }
    let n = s.len();
    let p = pat.len();
    if p == 0 {
        assert(occurs_at(s@, pat@, 0)) by {
            assert(s@.subrange(0, 0) =~= pat@);
        }
        return Some(0);
    }
    if p > n {
        return None;
    }
    let mut k: usize = 0;
    while k < n - p + 1
        invariant
            n == s@.len(),
            p == pat@.len(),
            1 <= p <= n,
            k <= n - p + 1,
            forall|m: int| 0 <= m < k ==> !#[trigger] occurs_at(s@, pat@, m),
        decreases n - p + 1 - k,
    {
        if occurs_at_exec(s, pat, k) {
            proof {
                lemma_find_seq(s@, pat@);
                match find_seq(s@, pat@) {
                    Some(i) => {
                        if i < k {
                            assert(!occurs_at(s@, pat@, i));
                        } else if i > k {
                            assert(!occurs_at(s@, pat@, k as int));
                        }
                    },
                    None => {
                        assert(!occurs_at(s@, pat@, k as int));
                    },
                }
            }
            return Some(k);
        }
        k = k + 1;
    }
    proof {
        if let Some(i) = find_seq(s@, pat@) {
            assert(!occurs_at(s@, pat@, i));
        }
    }
    None
}

/// Whether `s` contains `pat` (`str::contains`).
pub fn contains(s: &[char], pat: &[char]) -> (res: bool)
    ensures
        res == contains_seq(s@, pat@),
{
    find(s, pat).is_some()
}

/// Whether `s` begins with `pat` (`str::starts_with`).
pub fn starts_with(s: &[char], pat: &[char]) -> (res: bool)
    ensures
        res == starts_with_seq(s@, pat@),
{
    if pat.len() > s.len() {
        return false;
    }
    let r = occurs_at_exec(s, pat, 0);
    assert(s@.subrange(0, pat@.len() as int) =~= s@.take(pat@.len() as int));
    r
}

/// Whether `a` and `b` hold the same characters.
pub fn chars_eq(a: &[char], b: &[char]) -> (res: bool)
    ensures
        res == (a@ == b@),
{
    if a.len() != b.len() {
        return false;
    }
    let r = starts_with(a, b);
    assert(a@.take(b@.len() as int) =~= a@);
    r
}

/// The first index of `c` in `s`.
pub fn index_of_char(s: &[char], c: char) -> (res: Option<usize>)
    ensures
        match res {
            Some(i) => index_of(s@, c) == Some(i as int),
            None => index_of(s@, c) is None,
        },
{
    let n = s.len();
    let mut k: usize = 0;
    while k < n
        invariant
            n == s@.len(),
            k <= n,
            forall|m: int| 0 <= m < k ==> s@[m] != c,
        decreases n - k,
    {
        if s[k] == c {
            proof {
                lemma_index_of_at(s@, c, k as int);
            }
            return Some(k);
        }
        k = k + 1;
    }
    proof {
        lemma_index_of_none(s@, c);
    }
    None
}

/// Whether `c` is whitespace (`char::is_whitespace`).
pub fn is_whitespace(c: char) -> (res: bool)
    ensures
        res == is_ws(c),
{
    let u = c as u32;
    (0x09 <= u && u <= 0x0D) || u == 0x20 || u == 0x85 || u == 0xA0 || u == 0x1680 || (0x2000 <= u
        && u <= 0x200A) || u == 0x2028 || u == 0x2029 || u == 0x202F || u == 0x205F || u == 0x3000
}

/// `s` without leading and trailing whitespace (`str::trim`).
pub fn trim(s: &[char]) -> (res: Vec<char>)
    ensures
        res@ == trim_seq(s@),
{
    let n = s.len();
    let mut a: usize = 0;
    while a < n && is_whitespace(s[a])
        invariant
            n == s@.len(),
            a <= n,
            forall|k: int| 0 <= k < a ==> is_ws(s@[k]),
        decreases n - a,
    {
        a = a + 1;
    }
    let mut b: usize = n;
    while b > a && is_whitespace(s[b - 1])
        invariant
            n == s@.len(),
            a <= b <= n,
            forall|k: int| b <= k < n ==> is_ws(s@[k]),
        decreases b - a,
    {
        b = b - 1;
    }
    proof {
        lemma_trim_start(s@, a as int);
        let t = s@.skip(a as int);
        assert forall|k: int| b - a <= k < t.len() implies is_ws(t[k]) by {
            assert(t[k] == s@[k + a]);
        }
        if b > a {
            assert(t[b - a - 1] == s@[b - 1]);
        }
        lemma_trim_end(t, b - a);
        assert(t.take(b - a) =~= s@.subrange(a as int, b as int));
    }
    slice_chars(s, a, b)
}

/// The lines of `s`, exactly as `str::lines` yields them.
pub fn split_lines(s: &[char]) -> (res: Vec<Vec<char>>)
    ensures
        views(res@) == lines_of(s@),
{
    let n = s.len();
    let mut res: Vec<Vec<char>> = Vec::new();
    let mut start: usize = 0;
    assert(s@.skip(0) =~= s@);
    assert(views(res@) =~= Seq::<Seq<char>>::empty());
    while start < n
        invariant
            n == s@.len(),
            start <= n,
            views(res@) + lines_of(s@.skip(start as int)) == lines_of(s@),
        decreases n - start,
    {
        let ghost t = s@.skip(start as int);
        let mut j = start;
        while j < n && s[j] != '\n'
            invariant
                n == s@.len(),
                start <= j <= n,
                forall|k: int| start <= k < j ==> s@[k] != '\n',
            decreases n - j,
        {
            j = j + 1;
        }
        let ghost old_res = views(res@);
        if j < n {
            let mut end = j;
            if end > start && s[end - 1] == '\r' {
                end = end - 1;
            }
            let line = slice_chars(s, start, end);
            proof {
                assert forall|k: int| 0 <= k < j - start implies t[k] != '\n' by {
                    assert(t[k] == s@[k + start]);
                }
                assert(t[j - start] == s@[j as int]);
                lemma_lines_cut(t, j - start);
                assert(t.take(j - start) =~= s@.subrange(start as int, j as int));
                assert(t.skip(j - start + 1) =~= s@.skip(j + 1));
                assert(strip_cr(t.take(j - start)) =~= line@);
            }
            res.push(line);
            proof {
                assert(views(res@) =~= old_res.push(line@));
                assert(views(res@) + lines_of(s@.skip(j + 1)) =~= old_res + lines_of(t));
            }
            start = j + 1;
        } else {
            let line = slice_chars(s, start, n);
            proof {
                assert forall|k: int| 0 <= k < t.len() implies t[k] != '\n' by {
                    assert(t[k] == s@[k + start]);
                }
                lemma_lines_last(t);
                assert(t =~= line@);
            }
            res.push(line);
            proof {
                assert(views(res@) =~= old_res.push(line@));
                assert(s@.skip(n as int) =~= Seq::<char>::empty());
                assert(views(res@) + lines_of(s@.skip(n as int)) =~= old_res + lines_of(t));
            }
            start = n;
        }
    }
    assert(s@.skip(n as int) =~= Seq::<char>::empty());
    assert(views(res@) + lines_of(s@.skip(n as int)) =~= views(res@));
    res
}

/// The parts joined with `sep` between each two neighbours (`[_]::join`).
pub fn join(parts: &Vec<Vec<char>>, sep: &[char]) -> (res: Vec<char>)
    ensures
        res@ == join_seq(views(parts@), sep@),
{
    let ghost all = views(parts@);
    let mut res: Vec<char> = Vec::new();
    let n = parts.len();
    for i in 0..n
        invariant
            n == parts@.len(),
            all == views(parts@),
            res@ == join_seq(all.take(i as int), sep@),
    {
        let ghost before = res@;
        if i > 0 {
            push_all(&mut res, sep);
        }
        push_all(&mut res, parts[i].as_slice());
        proof {
            let taken = all.take(i + 1);
            assert(taken.drop_last() =~= all.take(i as int));
            assert(taken.last() == parts@[i as int]@);
            if i == 0 {
                assert(taken.len() == 1);
            }
        }
    }
    assert(all.take(n as int) =~= all);
    res
}

/// The decimal digit for `d < 10`.
fn digit(d: u64) -> (res: char)
    requires
        d < 10,
    ensures
        res == digit_char(d as nat),
{
    if d == 0 {
        '0'
    } else if d == 1 {
        '1'
    } else if d == 2 {
        '2'
    } else if d == 3 {
        '3'
    } else if d == 4 {
        '4'
    } else if d == 5 {
        '5'
    } else if d == 6 {
        '6'
    } else if d == 7 {
        '7'
    } else if d == 8 {
        '8'
    } else {
        '9'
    }
}

/// `n` written in decimal (`format!("{}", n)`).
pub fn decimal_chars(n: u64) -> (res: Vec<char>)
    ensures
        res@ == decimal(n as nat),
    decreases n,
{
    if n < 10 {
        let mut v: Vec<char> = Vec::new();
        v.push(digit(n));
        assert(v@ =~= seq![digit_char(n as nat)]);
        v
    } else {
        let mut v = decimal_chars(n / 10);
        v.push(digit(n % 10));
        v
    }
}

} // verus!
