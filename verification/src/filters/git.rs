//! Filters that compact the output of individual `git` subcommands.

use vstd::prelude::*;

use crate::text::{
    byte_len, chars_eq, chars_of, contains, contains_seq, decimal, decimal_chars, find, find_seq,
    index_of, index_of_char, join, join_seq, lemma_find_seq, lemma_index_of, lemma_index_of_at,
    lemma_lines_cut, lemma_lines_last, lemma_trim_idempotent, lemma_two_bytes, lines_of, push_all,
    slice_chars, split_lines, starts_with, starts_with_seq, string_of, strip_cr, trim,
    trim_end_seq, trim_seq, trim_start_seq, views,
};

verus! {

// ---------------------------------------------------------------------------
// `git status --porcelain=v1 --branch`
// ---------------------------------------------------------------------------

/// What the compact status summary counts, line by line.
pub struct StatusTally {
    /// The branch description of the last `## ` header, if any.
    pub branch: Option<Seq<char>>,
    pub added: nat,
    pub modified: nat,
    pub renamed: nat,
    pub copied: nat,
    pub deleted: nat,
    pub type_changed: nat,
    pub conflicted: nat,
    pub untracked: nat,
    pub ignored: nat,
}

/// The tally before any line is read.
pub open spec fn empty_tally() -> StatusTally {
    StatusTally {
        branch: None,
        added: 0,
        modified: 0,
        renamed: 0,
        copied: 0,
        deleted: 0,
        type_changed: 0,
        conflicted: 0,
        untracked: 0,
        ignored: 0,
    }
}

/// The porcelain-v1 unmerged states: `DD`, `AU`, `UD`, `UA`, `DU`, `AA`, `UU`.
pub open spec fn is_unmerged_spec(idx: char, work: char) -> bool {
    idx == 'U' || work == 'U' || (idx == 'A' && work == 'A') || (idx == 'D' && work == 'D')
}

/// The end (exclusive) of the sync status `[...]` in a header: just after the
/// first `]`, or the end of the header when there is none.
pub open spec fn bracket_end(rest: Seq<char>) -> int {
    match index_of(rest, ']') {
        Some(e) => e + 1,
        None => rest.len() as int,
    }
}

/// The branch description of a `## ` header (given without the `## `): the
/// tracking information after `...` is dropped, but a sync status such as
/// `[ahead 1]` is kept. Where the first `]` stands before the first `[` (a
/// branch name may hold a `]`), no sync status can be read and none is kept.
pub open spec fn branch_of(rest: Seq<char>) -> Seq<char> {
    match find_seq(rest, "..."@) {
        None => rest,
        Some(d) => match index_of(rest, '[') {
            None => rest.take(d),
            Some(k) => if k <= bracket_end(rest) {
                rest.take(d) + seq![' '] + rest.subrange(k, bracket_end(rest))
            } else {
                rest.take(d)
            },
        },
    }
}

/// A header can be read with confidence: where it has tracking information
/// and a `[`, the `[` does not stand after the end of the sync status.
pub open spec fn header_sound(rest: Seq<char>) -> bool {
    match find_seq(rest, "..."@) {
        None => true,
        Some(d) => match index_of(rest, '[') {
            None => true,
            Some(k) => k <= bracket_end(rest),
        },
    }
}

/// The header marker of porcelain v1.
pub open spec fn header_mark() -> Seq<char> {
    "## "@
}

/// The status line counts an entry under its worktree letter.
pub open spec fn count_work(t: StatusTally, work: char) -> StatusTally {
    if work == 'M' {
        StatusTally { modified: t.modified + 1, ..t }
    } else if work == 'D' {
        StatusTally { deleted: t.deleted + 1, ..t }
    } else if work == 'T' {
        StatusTally { type_changed: t.type_changed + 1, ..t }
    } else {
        t
    }
}

/// The status line counts an entry under its index letter, unless the
/// worktree letter already counted it the same way.
pub open spec fn count_index(t: StatusTally, idx: char, work: char) -> StatusTally {
    if idx == 'M' && work != 'M' {
        StatusTally { modified: t.modified + 1, ..t }
    } else if idx == 'A' {
        StatusTally { added: t.added + 1, ..t }
    } else if idx == 'D' && work != 'D' {
        StatusTally { deleted: t.deleted + 1, ..t }
    } else if idx == 'R' {
        StatusTally { renamed: t.renamed + 1, ..t }
    } else if idx == 'C' {
        StatusTally { copied: t.copied + 1, ..t }
    } else if idx == 'T' && work != 'T' {
        StatusTally { type_changed: t.type_changed + 1, ..t }
    } else {
        t
    }
}

/// An entry with the index letter `idx` and the worktree letter `work`.
pub open spec fn count_entry(t: StatusTally, idx: char, work: char) -> StatusTally {
    if idx == '?' && work == '?' {
        StatusTally { untracked: t.untracked + 1, ..t }
    } else if idx == '!' && work == '!' {
        StatusTally { ignored: t.ignored + 1, ..t }
    } else if is_unmerged_spec(idx, work) {
        StatusTally { conflicted: t.conflicted + 1, ..t }
    } else {
        count_index(count_work(t, work), idx, work)
    }
}

/// The second status letter of an entry line (a space where there is none).
pub open spec fn work_letter(line: Seq<char>) -> char {
    if line.len() >= 2 {
        line[1]
    } else {
        ' '
    }
}

/// One porcelain line read into the tally: a `## ` header sets the branch;
/// a line of at least two bytes is an entry; shorter lines are ignored.
pub open spec fn status_step(t: StatusTally, line: Seq<char>) -> StatusTally {
    if starts_with_seq(line, header_mark()) {
        StatusTally { branch: Some(branch_of(line.skip(header_mark().len() as int))), ..t }
    } else if byte_len(line) >= 2 {
        count_entry(t, line[0], work_letter(line))
    } else {
        t
    }
}

/// The tally of a sequence of porcelain lines, read in order.
pub open spec fn tally_of(lines: Seq<Seq<char>>) -> StatusTally
    decreases lines.len(),
{
    if lines.len() == 0 {
        empty_tally()
    } else {
        status_step(tally_of(lines.drop_last()), lines.last())
    }
}

/// `"<n><label>"` when `n` is positive, nothing otherwise.
pub open spec fn count_part(n: nat, label: Seq<char>) -> Seq<Seq<char>> {
    if n > 0 {
        seq![decimal(n) + label]
    } else {
        seq![]
    }
}

/// The counted parts of the summary, in their fixed order.
pub open spec fn status_parts(t: StatusTally) -> Seq<Seq<char>> {
    count_part(t.added, " added"@) + count_part(t.modified, " modified"@) + count_part(
        t.renamed,
        " renamed"@,
    ) + count_part(t.copied, " copied"@) + count_part(t.deleted, " deleted"@) + count_part(
        t.type_changed,
        " type-changed"@,
    ) + count_part(t.conflicted, " conflicted"@) + count_part(t.untracked, " untracked"@)
        + count_part(t.ignored, " ignored"@)
}

/// The message of a clean working tree.
pub open spec fn clean_message() -> Seq<char> {
    "nothing to commit, working tree clean"@
}

/// The status line: the parts joined by `, `, or the clean message when
/// nothing was counted.
pub open spec fn status_line(t: StatusTally) -> Seq<char> {
    if status_parts(t).len() == 0 {
        clean_message()
    } else {
        join_seq(status_parts(t), ", "@)
    }
}

/// The summary: `Branch: <branch>` on a line of its own when a header was
/// seen, then the status line.
pub open spec fn render_status(t: StatusTally) -> Seq<char> {
    match t.branch {
        None => status_line(t),
        Some(b) => "Branch: "@ + b + "\n"@ + status_line(t),
    }
}

/// Every header of the porcelain text can be read with confidence.
pub open spec fn status_input_sound(porcelain: Seq<char>) -> bool {
    forall|i: int|
        0 <= i < lines_of(porcelain).len() && starts_with_seq(
            #[trigger] lines_of(porcelain)[i],
            header_mark(),
        ) ==> header_sound(lines_of(porcelain)[i].skip(header_mark().len() as int))
}

/// The compact summary of a porcelain-v1 text.
pub open spec fn filter_status_spec(porcelain: Seq<char>) -> Seq<char> {
    render_status(tally_of(lines_of(porcelain)))
}

// ---------------------------------------------------------------------------
// `git diff`, `git log`, `git pull`, `git commit`, `git push`
// ---------------------------------------------------------------------------

/// The most lines of diff output that are kept.
pub open spec fn diff_line_cap() -> nat {
    100
}

/// The diff output capped at 100 lines: shorter output is kept as it is;
/// longer output keeps its first 100 lines, joined by `'\n'`, and a notice
/// of how many lines were cut.
pub open spec fn filter_diff_spec(raw: Seq<char>) -> Seq<char> {
    let ls = lines_of(raw);
    if ls.len() <= diff_line_cap() {
        raw
    } else {
        join_seq(ls.take(diff_line_cap() as int), "\n"@) + "\n... ["@ + decimal(
            (ls.len() - diff_line_cap()) as nat,
        ) + " lines truncated]"@
    }
}

/// The number of decimal digits that `t` starts with.
pub open spec fn leading_digits(t: Seq<char>) -> nat
    decreases t.len(),
{
    if t.len() > 0 && is_digit(t[0]) {
        1 + leading_digits(t.drop_first())
    } else {
        0
    }
}

/// A (trimmed) line that counts the changed files: a number, then
/// ` file changed` or ` files changed` (and possibly more, such as the
/// insertions and deletions).
pub open spec fn is_change_summary(t: Seq<char>) -> bool {
    let d = leading_digits(t) as int;
    &&& d > 0
    &&& (starts_with_seq(t.skip(d), " file changed"@) || starts_with_seq(
        t.skip(d),
        " files changed"@,
    ))
}

/// A line that summarises a pull: once trimmed, `N file(s) changed...` or
/// `Already up to date.`.
pub open spec fn is_pull_summary(line: Seq<char>) -> bool {
    is_change_summary(trim_seq(line)) || trim_seq(line) == "Already up to date."@
}

/// The last pull summary line, trimmed.
pub open spec fn last_pull_summary(ls: Seq<Seq<char>>) -> Option<Seq<char>>
    decreases ls.len(),
{
    if ls.len() == 0 {
        None
    } else if is_pull_summary(ls.last()) {
        Some(trim_seq(ls.last()))
    } else {
        last_pull_summary(ls.drop_last())
    }
}

/// The last line that is not blank, trimmed; `ok` when there is none.
pub open spec fn last_nonblank_or_ok(ls: Seq<Seq<char>>) -> Seq<char>
    decreases ls.len(),
{
    if ls.len() == 0 {
        "ok"@
    } else if trim_seq(ls.last()).len() > 0 {
        trim_seq(ls.last())
    } else {
        last_nonblank_or_ok(ls.drop_last())
    }
}

/// The pull summary: the final summary line, else the last non-blank line
/// (both trimmed), else `ok`.
pub open spec fn filter_pull_spec(raw: Seq<char>) -> Seq<char> {
    match last_pull_summary(lines_of(raw)) {
        Some(t) => t,
        None => last_nonblank_or_ok(lines_of(raw)),
    }
}

/// The commit summary of the first line (trimmed) that opens with `[` and has
/// a `]`: `ok ` and what stands between them; `ok` when no line does.
pub open spec fn commit_scan(ls: Seq<Seq<char>>) -> Seq<char>
    decreases ls.len(),
{
    if ls.len() == 0 {
        "ok"@
    } else {
        let t = trim_seq(ls[0]);
        if t.len() > 0 && t[0] == '[' && index_of(t, ']') is Some {
            "ok "@ + t.subrange(1, index_of(t, ']').unwrap())
        } else {
            commit_scan(ls.drop_first())
        }
    }
}

/// The commit summary of a `git commit` output.
pub open spec fn filter_commit_spec(raw: Seq<char>) -> Seq<char> {
    commit_scan(lines_of(raw))
}

/// The push summary of the first line (trimmed) that is a tracking line, the
/// up-to-date notice, or a ref update `a -> b`; `ok` when no line is.
pub open spec fn push_scan(ls: Seq<Seq<char>>) -> Seq<char>
    decreases ls.len(),
{
    if ls.len() == 0 {
        "ok"@
    } else {
        let t = trim_seq(ls[0]);
        if starts_with_seq(t, "Branch"@) || t == "Everything up-to-date"@ {
            t
        } else if contains_seq(t, "->"@) {
            "ok "@ + t
        } else {
            push_scan(ls.drop_first())
        }
    }
}

/// The push summary of a `git push` output.
pub open spec fn filter_push_spec(raw: Seq<char>) -> Seq<char> {
    push_scan(lines_of(raw))
}

/// Filter `git diff --stat --unified=1` output: cap the body at 100 lines.
pub fn filter_diff(raw: &str) -> (res: String)
    ensures
        res@ == filter_diff_spec(raw@),
{
    let text = chars_of(raw);
    let lines = split_lines(text.as_slice());
    let n = lines.len();
    if n <= 100 {
        return string_of(text.as_slice());
    }
    let mut kept: Vec<Vec<char>> = Vec::new();
    for i in 0..100
        invariant
            n == lines@.len(),
            n > 100,
            views(kept@) == views(lines@).take(i as int),
    {
        let line = slice_chars(lines[i].as_slice(), 0, lines[i].len());
        assert(line@ =~= lines@[i as int]@);
        let ghost before = kept@;
        kept.push(line);
        assert(views(kept@) =~= views(before).push(line@));
        assert(views(lines@).take(i + 1) =~= views(lines@).take(i as int).push(views(lines@)[i as int]));
    }
    let nl = chars_of("\n");
    let mut out = join(&kept, nl.as_slice());
    let notice = chars_of("\n... [");
    push_all(&mut out, notice.as_slice());
    let count = decimal_chars((n - 100) as u64);
    push_all(&mut out, count.as_slice());
    let tail = chars_of(" lines truncated]");
    push_all(&mut out, tail.as_slice());
    string_of(out.as_slice())
}

/// Format `git log --pretty=format:"%h %s (%cr)" -n 20` output: it is already
/// compact, so it is returned as it is.
pub fn filter_log(raw: &str) -> (res: String)
    ensures
        res@ == raw@,
{
    let text = chars_of(raw);
    string_of(text.as_slice())
}

/// The number of decimal digits that `t` starts with.
fn count_leading_digits(t: &[char]) -> (res: usize)
    ensures
        res == leading_digits(t@),
        res <= t@.len(),
{
    let n = t.len();
    let mut d: usize = 0;
    while d < n && '0' <= t[d] && t[d] <= '9'
        invariant
            n == t@.len(),
            d <= n,
            forall|k: int| 0 <= k < d ==> is_digit(t@[k]),
        decreases n - d,
    {
        d = d + 1;
    }
    proof {
        lemma_leading_digits(t@, d as int);
    }
    d
}

/// `leading_digits` is the length of the run of digits at the front.
proof fn lemma_leading_digits(t: Seq<char>, d: int)
    requires
        0 <= d <= t.len(),
        forall|k: int| 0 <= k < d ==> is_digit(t[k]),
        d == t.len() || !is_digit(t[d]),
    ensures
        leading_digits(t) == d,
    decreases d,
{
    if d > 0 {
        lemma_leading_digits(t.drop_first(), d - 1);
    }
}

/// Whether a trimmed line counts the changed files (`N file(s) changed...`).
fn change_summary(t: &[char]) -> (res: bool)
    ensures
        res == is_change_summary(t@),
{
    let d = count_leading_digits(t);
    if d == 0 {
        return false;
    }
    let rest = slice_chars(t, d, t.len());
    assert(rest@ =~= t@.skip(d as int));
    let one = chars_of(" file changed");
    let many = chars_of(" files changed");
    starts_with(rest.as_slice(), one.as_slice()) || starts_with(rest.as_slice(), many.as_slice())
}

/// Compact a `git pull` output: keep the final summary line ("N files
/// changed" or "Already up to date.") when there is one, else the last line
/// that is not blank.
pub fn filter_pull(raw: &str) -> (res: String)
    ensures
        res@ == filter_pull_spec(raw@),
{
    let text = chars_of(raw);
    let lines = split_lines(text.as_slice());
    let ghost ls = lines_of(raw@);
    let n = lines.len();
    let up_to_date = chars_of("Already up to date.");
    let mut j = n;
    assert(ls.take(n as int) =~= ls);
    while j > 0
        invariant
            j <= n == lines@.len(),
            views(lines@) == ls,
            ls == lines_of(raw@),
            up_to_date@ == "Already up to date."@,
            last_pull_summary(ls) == last_pull_summary(ls.take(j as int)),
        decreases j,
    {
        let t = trim(lines[j - 1].as_slice());
        assert(ls.take(j as int).last() == lines@[j - 1]@);
        if change_summary(t.as_slice()) || chars_eq(t.as_slice(), up_to_date.as_slice()) {
            return string_of(t.as_slice());
        }
        assert(ls.take(j as int).drop_last() =~= ls.take(j - 1));
        j = j - 1;
    }
    assert(ls.take(0) =~= Seq::<Seq<char>>::empty());
    let mut j = n;
    while j > 0
        invariant
            j <= n == lines@.len(),
            views(lines@) == ls,
            ls == lines_of(raw@),
            last_pull_summary(ls) is None,
            last_nonblank_or_ok(ls) == last_nonblank_or_ok(ls.take(j as int)),
        decreases j,
    {
        let t = trim(lines[j - 1].as_slice());
        assert(ls.take(j as int).last() == lines@[j - 1]@);
        if t.len() > 0 {
            return string_of(t.as_slice());
        }
        assert(ls.take(j as int).drop_last() =~= ls.take(j - 1));
        j = j - 1;
    }
    let ok = chars_of("ok");
    string_of(ok.as_slice())
}

/// Extract the branch and short hash from a `git commit` output
/// (`[main abc1234] message` gives `ok main abc1234`).
pub fn filter_commit(raw: &str) -> (res: String)
    ensures
        res@ == filter_commit_spec(raw@),
{
    let text = chars_of(raw);
    let lines = split_lines(text.as_slice());
    let ghost ls = lines_of(raw@);
    let n = lines.len();
    assert(ls.skip(0) =~= ls);
    for i in 0..n
        invariant
            n == lines@.len(),
            views(lines@) == ls,
            ls == lines_of(raw@),
            commit_scan(ls) == commit_scan(ls.skip(i as int)),
    {
        let line = lines[i].as_slice();
        assert(ls.skip(i as int)[0] == line@);
        let t = trim(line);
        if t.len() > 0 && t[0] == '[' {
            if let Some(end) = index_of_char(t.as_slice(), ']') {
                proof {
                    lemma_index_of(t@, ']');
                }
                let mut out = chars_of("ok ");
                let inner = slice_chars(t.as_slice(), 1, end);
                push_all(&mut out, inner.as_slice());
                return string_of(out.as_slice());
            }
        }
        assert(ls.skip(i as int).drop_first() =~= ls.skip(i + 1));
    }
    assert(ls.skip(n as int) =~= Seq::<Seq<char>>::empty());
    let ok = chars_of("ok");
    string_of(ok.as_slice())
}

/// Extract the pushed branch from a `git push` output (which git prints to
/// stderr).
pub fn filter_push(raw: &str) -> (res: String)
    ensures
        res@ == filter_push_spec(raw@),
{
    let text = chars_of(raw);
    let lines = split_lines(text.as_slice());
    let ghost ls = lines_of(raw@);
    let n = lines.len();
    let branch = chars_of("Branch");
    let up_to_date = chars_of("Everything up-to-date");
    let arrow = chars_of("->");
    assert(ls.skip(0) =~= ls);
    for i in 0..n
        invariant
            n == lines@.len(),
            views(lines@) == ls,
            ls == lines_of(raw@),
            branch@ == "Branch"@,
            up_to_date@ == "Everything up-to-date"@,
            arrow@ == "->"@,
            push_scan(ls) == push_scan(ls.skip(i as int)),
    {
        let line = lines[i].as_slice();
        assert(ls.skip(i as int)[0] == line@);
        let t = trim(line);
        if starts_with(t.as_slice(), branch.as_slice()) || chars_eq(
            t.as_slice(),
            up_to_date.as_slice(),
        ) {
            return string_of(t.as_slice());
        }
        if contains(t.as_slice(), arrow.as_slice()) {
            let mut out = chars_of("ok ");
            push_all(&mut out, t.as_slice());
            return string_of(out.as_slice());
        }
        assert(ls.skip(i as int).drop_first() =~= ls.skip(i + 1));
    }
    assert(ls.skip(n as int) =~= Seq::<Seq<char>>::empty());
    let ok = chars_of("ok");
    string_of(ok.as_slice())
}

/// The running counts of `filter_status`.
struct Counts {
    branch: Option<Vec<char>>,
    added: u64,
    modified: u64,
    renamed: u64,
    copied: u64,
    deleted: u64,
    type_changed: u64,
    conflicted: u64,
    untracked: u64,
    ignored: u64,
}

impl Counts {
    spec fn as_tally(&self) -> StatusTally {
        StatusTally {
            branch: match self.branch {
                Some(b) => Some(b@),
                None => None,
            },
            added: self.added as nat,
            modified: self.modified as nat,
            renamed: self.renamed as nat,
            copied: self.copied as nat,
            deleted: self.deleted as nat,
            type_changed: self.type_changed as nat,
            conflicted: self.conflicted as nat,
            untracked: self.untracked as nat,
            ignored: self.ignored as nat,
        }
    }

    /// Every count is at most `n`.
    spec fn bounded(&self, n: int) -> bool {
        &&& self.added <= n
        &&& self.modified <= n
        &&& self.renamed <= n
        &&& self.copied <= n
        &&& self.deleted <= n
        &&& self.type_changed <= n
        &&& self.conflicted <= n
        &&& self.untracked <= n
        &&& self.ignored <= n
    }

    fn new() -> (res: Counts)
        ensures
            res.as_tally() == empty_tally(),
            res.bounded(0),
    {
        Counts {
            branch: None,
            added: 0,
            modified: 0,
            renamed: 0,
            copied: 0,
            deleted: 0,
            type_changed: 0,
            conflicted: 0,
            untracked: 0,
            ignored: 0,
        }
    }
}

/// Whether the two status letters mark an unmerged (conflicted) entry.
fn is_unmerged(idx: char, work: char) -> (res: bool)
    ensures
        res == is_unmerged_spec(idx, work),
{
    idx == 'U' || work == 'U' || (idx == 'A' && work == 'A') || (idx == 'D' && work == 'D')
}

/// Counts one entry line with the status letters `idx` and `work`.
fn count_entry_exec(c: &mut Counts, idx: char, work: char)
    requires
        old(c).bounded(u64::MAX - 1),
    ensures
        final(c).as_tally() == count_entry(old(c).as_tally(), idx, work),
        forall|n: int| old(c).bounded(n) ==> #[trigger] final(c).bounded(n + 1),
{
    if idx == '?' && work == '?' {
        c.untracked = c.untracked + 1;
        return;
    }
    if idx == '!' && work == '!' {
        c.ignored = c.ignored + 1;
        return;
    }
    if is_unmerged(idx, work) {
        c.conflicted = c.conflicted + 1;
        return;
    }
    if work == 'M' {
        c.modified = c.modified + 1;
    } else if work == 'D' {
        c.deleted = c.deleted + 1;
    } else if work == 'T' {
        c.type_changed = c.type_changed + 1;
    }
    if idx == 'M' && work != 'M' {
        c.modified = c.modified + 1;
    } else if idx == 'A' {
        c.added = c.added + 1;
    } else if idx == 'D' && work != 'D' {
        c.deleted = c.deleted + 1;
    } else if idx == 'R' {
        c.renamed = c.renamed + 1;
    } else if idx == 'C' {
        c.copied = c.copied + 1;
    } else if idx == 'T' && work != 'T' {
        c.type_changed = c.type_changed + 1;
    }
}

/// The branch description of a `## ` header (given without the `## `).
fn branch_description(rest: &[char]) -> (res: Vec<char>)
    ensures
        res@ == branch_of(rest@),
{
    let dots = chars_of("...");
    let len = rest.len();
    match find(rest, dots.as_slice()) {
        None => slice_chars(rest, 0, rest.len()),
        Some(d) => {
            proof {
                lemma_find_seq(rest@, dots@);
                lemma_index_of(rest@, '[');
                lemma_index_of(rest@, ']');
            }
            let mut out = slice_chars(rest, 0, d);
            match index_of_char(rest, '[') {
                None => out,
                Some(k) => {
                    let end = match index_of_char(rest, ']') {
                        Some(e) => e + 1,
                        None => len,
                    };
                    if k > end {
                        return out;
                    }
                    out.push(' ');
                    let tail = slice_chars(rest, k, end);
                    push_all(&mut out, tail.as_slice());
                    out
                },
            }
        },
    }
}

/// Reads one porcelain line into the counts.
fn read_status_line(c: &mut Counts, line: &[char])
    requires
        old(c).bounded(u64::MAX - 1),
    ensures
        final(c).as_tally() == status_step(old(c).as_tally(), line@),
        forall|n: int| old(c).bounded(n) ==> #[trigger] final(c).bounded(n + 1),
{
    let mark = chars_of("## ");
    if starts_with(line, mark.as_slice()) {
        let rest = slice_chars(line, mark.len(), line.len());
        assert(rest@ == line@.skip(header_mark().len() as int));
        c.branch = Some(branch_description(rest.as_slice()));
        return;
    }
    proof {
        lemma_two_bytes(line@);
    }
    let n = line.len();
    if n >= 2 || (n == 1 && (line[0] as u32) >= 0x80) {
        let idx = line[0];
        let work = if n >= 2 {
            line[1]
        } else {
            ' '
        };
        count_entry_exec(c, idx, work);
    }
}

/// Appends `"<n><label>"` to the parts when `n` is positive.
fn push_count(parts: &mut Vec<Vec<char>>, n: u64, label: &str)
    ensures
        views(final(parts)@) == views(old(parts)@) + count_part(n as nat, label@),
{
    if n > 0 {
        let mut part = decimal_chars(n);
        let l = chars_of(label);
        push_all(&mut part, l.as_slice());
        parts.push(part);
        assert(views(parts@) =~= views(old(parts)@).push(part@));
        assert(count_part(n as nat, label@) =~= seq![part@]);
    } else {
        assert(views(parts@) =~= views(old(parts)@) + count_part(n as nat, label@));
    }
}

/// The status line of the counts.
fn status_line_exec(c: &Counts) -> (res: Vec<char>)
    ensures
        res@ == status_line(c.as_tally()),
{
    let mut parts: Vec<Vec<char>> = Vec::new();
    assert(views(parts@) =~= Seq::<Seq<char>>::empty());
    push_count(&mut parts, c.added, " added");
    push_count(&mut parts, c.modified, " modified");
    push_count(&mut parts, c.renamed, " renamed");
    push_count(&mut parts, c.copied, " copied");
    push_count(&mut parts, c.deleted, " deleted");
    push_count(&mut parts, c.type_changed, " type-changed");
    push_count(&mut parts, c.conflicted, " conflicted");
    push_count(&mut parts, c.untracked, " untracked");
    push_count(&mut parts, c.ignored, " ignored");
    assert(views(parts@) =~= status_parts(c.as_tally()));
    if parts.len() == 0 {
        chars_of("nothing to commit, working tree clean")
    } else {
        let sep = chars_of(", ");
        join(&parts, sep.as_slice())
    }
}

/// Whether a `## ` header (given without the `## `) can be read with confidence.
fn header_is_sound(rest: &[char]) -> (res: bool)
    ensures
        res == header_sound(rest@),
{
    let dots = chars_of("...");
    let len = rest.len();
    match find(rest, dots.as_slice()) {
        None => true,
        Some(_) => match index_of_char(rest, '[') {
            None => true,
            Some(k) => {
                proof {
                    lemma_index_of(rest@, ']');
                }
                match index_of_char(rest, ']') {
                    Some(e) => k <= e + 1,
                    None => k <= len,
                }
            },
        },
    }
}

/// Whether every header of the porcelain text can be read with confidence.
pub fn status_input_is_sound(porcelain: &str) -> (res: bool)
    ensures
        res == status_input_sound(porcelain@),
{
    let text = chars_of(porcelain);
    let lines = split_lines(text.as_slice());
    let ghost ls = lines_of(porcelain@);
    let mark = chars_of("## ");
    let n = lines.len();
    for i in 0..n
        invariant
            n == lines@.len(),
            views(lines@) == ls,
            ls == lines_of(porcelain@),
            mark@ == header_mark(),
            forall|k: int|
                0 <= k < i && starts_with_seq(#[trigger] ls[k], header_mark()) ==> header_sound(
                    ls[k].skip(header_mark().len() as int),
                ),
    {
        let line = lines[i].as_slice();
        assert(ls[i as int] == line@);
        if starts_with(line, mark.as_slice()) {
            let rest = slice_chars(line, mark.len(), line.len());
            assert(rest@ == line@.skip(header_mark().len() as int));
            if !header_is_sound(rest.as_slice()) {
                return false;
            }
        }
    }
    true
}

/// Parse `git status --porcelain=v1 --branch` output into a compact summary.
///
/// Input example:
///   "## main...origin/main [ahead 1]\n M src/main.rs\n?? foo.txt\n"
///
/// Output example:
///   "Branch: main [ahead 1]\n1 modified, 1 untracked"
pub fn filter_status(porcelain: &str) -> (res: String)
    ensures
        res@ == filter_status_spec(porcelain@),
{
    let text = chars_of(porcelain);
    let lines = split_lines(text.as_slice());
    let ghost ls = lines_of(porcelain@);
    let mut c = Counts::new();
    let n = lines.len();
    assert(ls.take(0) =~= Seq::<Seq<char>>::empty());
    for i in 0..n
        invariant
            n == lines@.len(),
            views(lines@) == ls,
            ls == lines_of(porcelain@),
            c.as_tally() == tally_of(ls.take(i as int)),
            c.bounded(i as int),
    {
        assert(ls[i as int] == lines@[i as int]@);
        read_status_line(&mut c, lines[i].as_slice());
        assert(c.bounded(i + 1));
        assert(ls.take(i + 1).drop_last() =~= ls.take(i as int));
    }
    assert(ls.take(n as int) =~= ls);
    let status = status_line_exec(&c);
    let out = match &c.branch {
        None => status,
        Some(b) => {
            let mut out = chars_of("Branch: ");
            push_all(&mut out, b.as_slice());
            let nl = chars_of("\n");
            push_all(&mut out, nl.as_slice());
            push_all(&mut out, status.as_slice());
            out
        },
    };
    string_of(out.as_slice())
}

// ---------------------------------------------------------------------------
// Laws
// ---------------------------------------------------------------------------

/// The number of entries the tally counted, over all kinds.
pub open spec fn total(t: StatusTally) -> nat {
    t.added + t.modified + t.renamed + t.copied + t.deleted + t.type_changed + t.conflicted
        + t.untracked + t.ignored
}

/// Reading a line never lowers a count.
proof fn lemma_step_grows(t: StatusTally, line: Seq<char>)
    ensures
        status_step(t, line).conflicted >= t.conflicted,
        total(status_step(t, line)) >= total(t),
{
}

/// The counts of a prefix of the lines are at most those of all lines.
proof fn lemma_tally_grows(lines: Seq<Seq<char>>, i: int)
    requires
        0 <= i <= lines.len(),
    ensures
        tally_of(lines).conflicted >= tally_of(lines.take(i)).conflicted,
        total(tally_of(lines)) >= total(tally_of(lines.take(i))),
    decreases lines.len() - i,
{
    if i < lines.len() {
        lemma_tally_grows(lines, i + 1);
        let p = lines.take(i + 1);
        assert(p.drop_last() =~= lines.take(i));
        lemma_step_grows(tally_of(lines.take(i)), p.last());
    } else {
        assert(lines.take(i) =~= lines);
    }
}

/// A count part is empty exactly when its count is zero.
proof fn lemma_count_part_len(n: nat, label: Seq<char>)
    ensures
        count_part(n, label).len() == (if n > 0 { 1int } else { 0int }),
{
}

/// The summary says the working tree is clean exactly when nothing was
/// counted: no entry of any kind, conflicts and type changes included.
pub proof fn law_clean_iff_nothing_counted(t: StatusTally)
    ensures
        status_line(t) == clean_message() <==> total(t) == 0,
{
    lemma_count_part_len(t.added, " added"@);
    lemma_count_part_len(t.modified, " modified"@);
    lemma_count_part_len(t.renamed, " renamed"@);
    lemma_count_part_len(t.copied, " copied"@);
    lemma_count_part_len(t.deleted, " deleted"@);
    lemma_count_part_len(t.type_changed, " type-changed"@);
    lemma_count_part_len(t.conflicted, " conflicted"@);
    lemma_count_part_len(t.untracked, " untracked"@);
    lemma_count_part_len(t.ignored, " ignored"@);
    let parts = status_parts(t);
    if total(t) > 0 {
        assert(parts.len() > 0);
        lemma_join_first(parts, ", "@);
        let first = parts[0];
        assert(first.len() > 0 && is_digit(first[0])) by {
            lemma_parts_start_with_digit(t);
        }
        reveal_strlit("nothing to commit, working tree clean");
        assert(!is_digit(clean_message()[0]));
    }
}

/// A decimal digit.
pub open spec fn is_digit(c: char) -> bool {
    '0' <= c <= '9'
}

/// Decimal numbers start with a digit.
proof fn lemma_decimal_first(n: nat)
    ensures
        decimal(n).len() > 0,
        is_digit(decimal(n)[0]),
    decreases n,
{
    if n >= 10 {
        lemma_decimal_first(n / 10);
    }
}

/// Every part of the status line starts with its count.
proof fn lemma_parts_start_with_digit(t: StatusTally)
    requires
        status_parts(t).len() > 0,
    ensures
        status_parts(t)[0].len() > 0,
        is_digit(status_parts(t)[0][0]),
{
    let parts = status_parts(t);
    assert forall|k: int| 0 <= k < parts.len() implies #[trigger] parts[k].len() > 0 && is_digit(
        parts[k][0],
    ) by {
        lemma_decimal_first(t.added);
        lemma_decimal_first(t.modified);
        lemma_decimal_first(t.renamed);
        lemma_decimal_first(t.copied);
        lemma_decimal_first(t.deleted);
        lemma_decimal_first(t.type_changed);
        lemma_decimal_first(t.conflicted);
        lemma_decimal_first(t.untracked);
        lemma_decimal_first(t.ignored);
    }
}

/// A joined text begins with its first part.
proof fn lemma_join_first(parts: Seq<Seq<char>>, sep: Seq<char>)
    requires
        parts.len() > 0,
    ensures
        join_seq(parts, sep).len() >= parts[0].len(),
        forall|k: int| 0 <= k < parts[0].len() ==> #[trigger] join_seq(parts, sep)[k] == parts[0][k],
    decreases parts.len(),
{
    if parts.len() > 1 {
        lemma_join_first(parts.drop_last(), sep);
    }
}

/// An entry line that counts as anything at all keeps the summary from
/// calling the working tree clean, wherever it stands among the lines.
pub proof fn law_counted_entry_is_never_clean(porcelain: Seq<char>, i: int)
    requires
        0 <= i < lines_of(porcelain).len(),
        !starts_with_seq(lines_of(porcelain)[i], header_mark()),
        byte_len(lines_of(porcelain)[i]) >= 2,
        total(
            count_entry(
                empty_tally(),
                lines_of(porcelain)[i][0],
                work_letter(lines_of(porcelain)[i]),
            ),
        ) > 0,
    ensures
        status_line(tally_of(lines_of(porcelain))) != clean_message(),
{
    let ls = lines_of(porcelain);
    let line = ls[i];
    let before = tally_of(ls.take(i));
    let p = ls.take(i + 1);
    assert(p.drop_last() =~= ls.take(i));
    assert(p.last() == line);
    assert(total(count_entry(before, line[0], work_letter(line))) > total(before));
    lemma_tally_grows(ls, i + 1);
    law_clean_iff_nothing_counted(tally_of(ls));
}

/// An unmerged entry (`DD`, `AU`, `UD`, `UA`, `DU`, `AA`, `UU`) is always
/// reported as a conflict, and the tree is then never called clean.
pub proof fn law_unmerged_entry_is_conflict(porcelain: Seq<char>, i: int)
    requires
        0 <= i < lines_of(porcelain).len(),
        !starts_with_seq(lines_of(porcelain)[i], header_mark()),
        lines_of(porcelain)[i].len() >= 2,
        is_unmerged_spec(lines_of(porcelain)[i][0], lines_of(porcelain)[i][1]),
    ensures
        tally_of(lines_of(porcelain)).conflicted >= 1,
        status_line(tally_of(lines_of(porcelain))) != clean_message(),
{
    let ls = lines_of(porcelain);
    let line = ls[i];
    lemma_two_bytes(line);
    let p = ls.take(i + 1);
    assert(p.drop_last() =~= ls.take(i));
    lemma_tally_grows(ls, i + 1);
    law_counted_entry_is_never_clean(porcelain, i);
}

/// No line of `lines_of` holds a `'\n'`.
proof fn lemma_lines_no_newline(s: Seq<char>)
    ensures
        forall|i: int, k: int|
            0 <= i < lines_of(s).len() && 0 <= k < lines_of(s)[i].len() ==> #[trigger] lines_of(
                s,
            )[i][k] != '\n',
    decreases s.len(),
{
    if s.len() > 0 {
        lemma_index_of(s, '\n');
        match index_of(s, '\n') {
            Some(j) => {
                lemma_lines_no_newline(s.skip(j + 1));
                let first = strip_cr(s.take(j));
                let ls = lines_of(s);
                assert(ls == seq![first] + lines_of(s.skip(j + 1)));
                assert forall|i: int, k: int|
                    0 <= i < ls.len() && 0 <= k < ls[i].len() implies #[trigger] ls[i][k]
                    != '\n' by {
                    if i > 0 {
                        assert(ls[i] == lines_of(s.skip(j + 1))[i - 1]);
                    } else {
                        assert(first[k] == s[k]);
                    }
                }
            },
            None => {},
        }
    }
}

/// A joined text, read from the front: the first part, the separator, and
/// the rest joined.
proof fn lemma_join_front(parts: Seq<Seq<char>>, sep: Seq<char>)
    requires
        parts.len() >= 2,
    ensures
        join_seq(parts, sep) == parts[0] + sep + join_seq(parts.drop_first(), sep),
    decreases parts.len(),
{
    if parts.len() > 2 {
        let init = parts.drop_last();
        let rest = parts.drop_first();
        lemma_join_front(init, sep);
        assert(init.drop_first() =~= rest.drop_last());
        let middle = join_seq(rest.drop_last(), sep);
        assert(join_seq(init, sep) == parts[0] + sep + middle);
        assert(rest.last() == parts.last());
        assert(join_seq(rest, sep) == middle + sep + parts.last());
        assert(join_seq(parts, sep) == join_seq(init, sep) + sep + parts.last());
        assert(join_seq(parts, sep) =~= parts[0] + sep + join_seq(rest, sep));
    } else {
        assert(parts.drop_last().len() == 1);
        assert(parts.drop_first().len() == 1);
        assert(join_seq(parts.drop_last(), sep) == parts.drop_last()[0]);
        assert(parts.drop_last()[0] == parts[0]);
        assert(join_seq(parts.drop_first(), sep) == parts.drop_first()[0]);
        assert(parts.drop_first()[0] == parts[1]);
        assert(join_seq(parts, sep) == join_seq(parts.drop_last(), sep) + sep + parts.last());
    }
}

/// A line without `'\n'`, a `'\n'`, and more text: the line comes first.
proof fn lemma_lines_after(a: Seq<char>, b: Seq<char>)
    requires
        forall|k: int| 0 <= k < a.len() ==> a[k] != '\n',
    ensures
        lines_of(a + seq!['\n'] + b) == seq![strip_cr(a)] + lines_of(b),
{
    let s = a + seq!['\n'] + b;
    assert(s[a.len() as int] == '\n');
    assert forall|k: int| 0 <= k < a.len() implies s[k] != '\n' by {
        assert(s[k] == a[k]);
    }
    lemma_lines_cut(s, a.len() as int);
    assert(s.take(a.len() as int) =~= a);
    assert(s.skip(a.len() as int + 1) =~= b);
}

/// Lines joined by `'\n'`, then `'\n'` and a last nonempty line: one line
/// more than were joined.
proof fn lemma_joined_line_count(parts: Seq<Seq<char>>, t: Seq<char>)
    requires
        parts.len() >= 1,
        forall|i: int, k: int|
            0 <= i < parts.len() && 0 <= k < parts[i].len() ==> #[trigger] parts[i][k] != '\n',
        t.len() > 0,
        forall|k: int| 0 <= k < t.len() ==> t[k] != '\n',
    ensures
        lines_of(join_seq(parts, seq!['\n']) + seq!['\n'] + t) == parts.map_values(
            |p: Seq<char>| strip_cr(p),
        ).push(t),
    decreases parts.len(),
{
    let nl = seq!['\n'];
    if parts.len() == 1 {
        assert(forall|k: int| 0 <= k < parts[0].len() ==> parts[0][k] != '\n');
        lemma_lines_after(parts[0], t);
        lemma_lines_last(t);
        assert(join_seq(parts, nl) == parts[0]);
        assert(seq![strip_cr(parts[0])] + seq![t] =~= parts.map_values(|p: Seq<char>| strip_cr(p)).push(
            t,
        ));
    } else {
        lemma_join_front(parts, nl);
        let rest = parts.drop_first();
        assert forall|i: int, k: int| 0 <= i < rest.len() && 0 <= k < rest[i].len() implies #[trigger] rest[i][k]
            != '\n' by {
            assert(rest[i] == parts[i + 1]);
        }
        lemma_joined_line_count(rest, t);
        assert(forall|k: int| 0 <= k < parts[0].len() ==> parts[0][k] != '\n');
        let tail = join_seq(rest, nl) + nl + t;
        assert(join_seq(parts, nl) + nl + t =~= parts[0] + nl + tail);
        lemma_lines_after(parts[0], tail);
        assert(seq![strip_cr(parts[0])] + rest.map_values(|p: Seq<char>| strip_cr(p)).push(t)
            =~= parts.map_values(|p: Seq<char>| strip_cr(p)).push(t));
    }
}

/// Decimal numbers are made of digits.
proof fn lemma_decimal_digits(n: nat)
    ensures
        forall|k: int| 0 <= k < decimal(n).len() ==> is_digit(#[trigger] decimal(n)[k]),
    decreases n,
{
    if n >= 10 {
        lemma_decimal_digits(n / 10);
        let d = decimal(n);
        let p = decimal(n / 10);
        assert forall|k: int| 0 <= k < d.len() implies is_digit(#[trigger] d[k]) by {
            if k < p.len() {
                assert(d[k] == p[k]);
            }
        }
    }
}

/// The diff filter shows at most 101 lines: output of up to 100 lines is
/// kept as it is, and longer output becomes exactly 100 lines and the
/// truncation notice.
pub proof fn law_diff_keeps_at_most_101_lines(raw: Seq<char>)
    ensures
        lines_of(raw).len() <= 100 ==> filter_diff_spec(raw) == raw,
        lines_of(raw).len() > 100 ==> lines_of(filter_diff_spec(raw)).len() == 101,
        lines_of(filter_diff_spec(raw)).len() <= 101,
        lines_of(raw).len() > 100 ==> forall|k: int|
            0 <= k < 100 ==> #[trigger] lines_of(filter_diff_spec(raw))[k] == strip_cr(
                lines_of(raw)[k],
            ),
        lines_of(raw).len() > 100 ==> lines_of(filter_diff_spec(raw))[100] == "... ["@ + decimal(
            (lines_of(raw).len() - 100) as nat,
        ) + " lines truncated]"@,
{
    let ls = lines_of(raw);
    if ls.len() > diff_line_cap() {
        reveal_strlit("\n");
        reveal_strlit("\n... [");
        reveal_strlit(" lines truncated]");
        let kept = ls.take(100);
        lemma_lines_no_newline(raw);
        assert forall|i: int, k: int| 0 <= i < kept.len() && 0 <= k < kept[i].len() implies #[trigger] kept[i][k]
            != '\n' by {
            assert(kept[i] == ls[i]);
        }
        let n = (ls.len() - diff_line_cap()) as nat;
        lemma_decimal_digits(n);
        let t = ("\n... ["@).drop_first() + decimal(n) + " lines truncated]"@;
        assert forall|k: int| 0 <= k < t.len() implies t[k] != '\n' by {
            if 5 <= k < 5 + decimal(n).len() {
                assert(t[k] == decimal(n)[k - 5]);
            }
        }
        assert("\n"@ =~= seq!['\n']);
        assert("\n... ["@ =~= seq!['\n'] + ("\n... ["@).drop_first());
        assert(filter_diff_spec(raw) =~= join_seq(kept, seq!['\n']) + seq!['\n'] + t);
        lemma_joined_line_count(kept, t);
        reveal_strlit("... [");
        assert(("\n... ["@).drop_first() =~= "... ["@);
    }
}

/// Every commit summary starts with `ok`.
pub proof fn law_commit_summary_starts_with_ok(raw: Seq<char>)
    ensures
        starts_with_seq(filter_commit_spec(raw), "ok"@),
{
    lemma_commit_scan_ok(lines_of(raw));
}

proof fn lemma_commit_scan_ok(ls: Seq<Seq<char>>)
    ensures
        starts_with_seq(commit_scan(ls), "ok"@),
    decreases ls.len(),
{
    reveal_strlit("ok");
    reveal_strlit("ok ");
    if ls.len() == 0 {
        assert(("ok"@).take(2) =~= "ok"@);
    } else {
        let t = trim_seq(ls[0]);
        if t.len() > 0 && t[0] == '[' && index_of(t, ']') is Some {
            let r = "ok "@ + t.subrange(1, index_of(t, ']').unwrap());
            assert(r.take(2) =~= "ok"@);
        } else {
            lemma_commit_scan_ok(ls.drop_first());
        }
    }
}

/// Without a summary line, the pull summary is the last line that is not
/// blank, trimmed, or `ok` when every line is blank.
pub proof fn law_pull_fallback(raw: Seq<char>)
    requires
        forall|i: int| 0 <= i < lines_of(raw).len() ==> !is_pull_summary(#[trigger] lines_of(raw)[i]),
    ensures
        filter_pull_spec(raw) == last_nonblank_or_ok(lines_of(raw)),
{
    lemma_no_pull_summary(lines_of(raw));
}

proof fn lemma_no_pull_summary(ls: Seq<Seq<char>>)
    requires
        forall|i: int| 0 <= i < ls.len() ==> !is_pull_summary(#[trigger] ls[i]),
    ensures
        last_pull_summary(ls) is None,
    decreases ls.len(),
{
    if ls.len() > 0 {
        assert(!is_pull_summary(ls[ls.len() - 1]));
        assert forall|i: int| 0 <= i < ls.drop_last().len() implies !is_pull_summary(
            #[trigger] ls.drop_last()[i],
        ) by {
            assert(ls.drop_last()[i] == ls[i]);
        }
        lemma_no_pull_summary(ls.drop_last());
    }
}

/// The pull summary is always trimmed: it has no leading or trailing
/// whitespace.
pub proof fn law_pull_summary_is_trimmed(raw: Seq<char>)
    ensures
        trim_seq(filter_pull_spec(raw)) == filter_pull_spec(raw),
{
    lemma_last_pull_summary_trimmed(lines_of(raw));
    lemma_last_nonblank_trimmed(lines_of(raw));
}

proof fn lemma_last_pull_summary_trimmed(ls: Seq<Seq<char>>)
    ensures
        last_pull_summary(ls) matches Some(t) ==> trim_seq(t) == t,
    decreases ls.len(),
{
    if ls.len() > 0 {
        lemma_trim_idempotent(ls.last());
        lemma_last_pull_summary_trimmed(ls.drop_last());
    }
}

proof fn lemma_last_nonblank_trimmed(ls: Seq<Seq<char>>)
    ensures
        trim_seq(last_nonblank_or_ok(ls)) == last_nonblank_or_ok(ls),
    decreases ls.len(),
{
    if ls.len() == 0 {
        reveal_strlit("ok");
        assert(trim_start_seq("ok"@) == "ok"@);
        assert(trim_end_seq("ok"@) == "ok"@);
    } else {
        lemma_trim_idempotent(ls.last());
        lemma_last_nonblank_trimmed(ls.drop_last());
    }
}

/// A porcelain line that describes an entry: not a `## ` header, and at
/// least two bytes long.
pub open spec fn is_entry_line(line: Seq<char>) -> bool {
    !starts_with_seq(line, header_mark()) && byte_len(line) >= 2
}

/// The status letters `x` (index) and `y` (worktree) of an entry that the
/// summary counts: untracked, ignored, unmerged, or a change in either.
pub open spec fn entry_counts(x: char, y: char) -> bool {
    ||| (x == '?' && y == '?')
    ||| (x == '!' && y == '!')
    ||| x == 'U'
    ||| y == 'U'
    ||| y == 'M'
    ||| y == 'D'
    ||| y == 'T'
    ||| x == 'M'
    ||| x == 'A'
    ||| x == 'D'
    ||| x == 'R'
    ||| x == 'C'
    ||| x == 'T'
}

/// A line that the summary counts.
pub open spec fn counts_as_change(line: Seq<char>) -> bool {
    is_entry_line(line) && entry_counts(line[0], work_letter(line))
}

/// Reading a line adds to the counts exactly when the summary counts it.
proof fn lemma_step_total(t: StatusTally, line: Seq<char>)
    ensures
        total(status_step(t, line)) >= total(t),
        total(status_step(t, line)) > total(t) <==> counts_as_change(line),
{
}

/// Nothing is counted exactly when no line counts.
proof fn lemma_tally_zero(ls: Seq<Seq<char>>)
    ensures
        total(tally_of(ls)) == 0 <==> forall|i: int|
            0 <= i < ls.len() ==> !counts_as_change(#[trigger] ls[i]),
    decreases ls.len(),
{
    if ls.len() > 0 {
        let init = ls.drop_last();
        lemma_tally_zero(init);
        lemma_step_total(tally_of(init), ls.last());
        if total(tally_of(ls)) == 0 {
            assert forall|i: int| 0 <= i < ls.len() implies !counts_as_change(#[trigger] ls[i]) by {
                if i < ls.len() - 1 {
                    assert(ls[i] == init[i]);
                }
            }
        } else {
            if !counts_as_change(ls.last()) {
                let i = choose|i: int| 0 <= i < init.len() && counts_as_change(#[trigger] init[i]);
                assert(ls[i] == init[i]);
            }
        }
    }
}

/// The working tree is called clean exactly when no line of the porcelain
/// text is an entry that the summary counts (untracked, ignored, unmerged,
/// or changed in the index or the worktree).
pub proof fn law_clean_iff_no_counted_entry(porcelain: Seq<char>)
    ensures
        status_line(tally_of(lines_of(porcelain))) == clean_message() <==> forall|i: int|
            0 <= i < lines_of(porcelain).len() ==> !counts_as_change(
                #[trigger] lines_of(porcelain)[i],
            ),
{
    lemma_tally_zero(lines_of(porcelain));
    law_clean_iff_nothing_counted(tally_of(lines_of(porcelain)));
}

/// The last `## ` header of the lines, without the `## `.
pub open spec fn last_header(ls: Seq<Seq<char>>) -> Option<Seq<char>>
    decreases ls.len(),
{
    if ls.len() == 0 {
        None
    } else if starts_with_seq(ls.last(), header_mark()) {
        Some(ls.last().skip(header_mark().len() as int))
    } else {
        last_header(ls.drop_last())
    }
}

/// The branch of the tally is that of the last header.
proof fn lemma_tally_branch(ls: Seq<Seq<char>>)
    ensures
        tally_of(ls).branch == match last_header(ls) {
            Some(r) => Some(branch_of(r)),
            None => None,
        },
    decreases ls.len(),
{
    if ls.len() > 0 {
        lemma_tally_branch(ls.drop_last());
    }
}

/// A text made of parts and separators without `'\n'` has none.
proof fn lemma_join_no_newline(parts: Seq<Seq<char>>, sep: Seq<char>)
    requires
        forall|i: int, k: int|
            0 <= i < parts.len() && 0 <= k < parts[i].len() ==> #[trigger] parts[i][k] != '\n',
        forall|k: int| 0 <= k < sep.len() ==> sep[k] != '\n',
    ensures
        forall|k: int| 0 <= k < join_seq(parts, sep).len() ==> #[trigger] join_seq(parts, sep)[k]
            != '\n',
    decreases parts.len(),
{
    if parts.len() == 1 {
        assert(forall|k: int| 0 <= k < parts[0].len() ==> parts[0][k] != '\n');
    } else if parts.len() > 1 {
        let init = parts.drop_last();
        assert forall|i: int, k: int| 0 <= i < init.len() && 0 <= k < init[i].len() implies #[trigger] init[i][k]
            != '\n' by {
            assert(init[i] == parts[i]);
        }
        lemma_join_no_newline(init, sep);
        let j = join_seq(init, sep);
        let l = parts.last();
        assert(forall|k: int| 0 <= k < l.len() ==> l[k] != '\n');
        assert forall|k: int| 0 <= k < join_seq(parts, sep).len() implies #[trigger] join_seq(
            parts,
            sep,
        )[k] != '\n' by {
            if k < j.len() {
                assert(join_seq(parts, sep)[k] == j[k]);
            } else if k < j.len() + sep.len() {
                assert(join_seq(parts, sep)[k] == sep[k - j.len()]);
            } else {
                assert(join_seq(parts, sep)[k] == l[k - j.len() - sep.len()]);
            }
        }
    }
}

/// A count part `"<n><label>"` has no `'\n'` when its label has none.
proof fn lemma_count_part_no_newline(n: nat, label: Seq<char>)
    requires
        forall|k: int| 0 <= k < label.len() ==> label[k] != '\n',
    ensures
        forall|i: int, k: int|
            0 <= i < count_part(n, label).len() && 0 <= k < count_part(n, label)[i].len()
                ==> #[trigger] count_part(n, label)[i][k] != '\n',
{
    if n > 0 {
        lemma_decimal_digits(n);
        let d = decimal(n);
        assert forall|i: int, k: int|
            0 <= i < count_part(n, label).len() && 0 <= k < count_part(n, label)[i].len() implies #[trigger] count_part(
            n,
            label,
        )[i][k] != '\n' by {
            if k < d.len() {
                assert(count_part(n, label)[i][k] == d[k]);
            } else {
                assert(count_part(n, label)[i][k] == label[k - d.len()]);
            }
        }
    }
}

/// Appending part lists keeps them free of `'\n'`.
proof fn lemma_parts_concat_no_newline(a: Seq<Seq<char>>, b: Seq<Seq<char>>)
    requires
        forall|i: int, k: int| 0 <= i < a.len() && 0 <= k < a[i].len() ==> #[trigger] a[i][k] != '\n',
        forall|i: int, k: int| 0 <= i < b.len() && 0 <= k < b[i].len() ==> #[trigger] b[i][k] != '\n',
    ensures
        forall|i: int, k: int|
            0 <= i < (a + b).len() && 0 <= k < (a + b)[i].len() ==> #[trigger] (a + b)[i][k] != '\n',
{
    assert forall|i: int, k: int| 0 <= i < (a + b).len() && 0 <= k < (a + b)[i].len() implies #[trigger] (a
        + b)[i][k] != '\n' by {
        if i < a.len() {
            assert((a + b)[i] == a[i]);
        } else {
            assert((a + b)[i] == b[i - a.len()]);
        }
    }
}

/// A literal without `'\n'`.
pub open spec fn no_newline(s: Seq<char>) -> bool {
    forall|k: int| 0 <= k < s.len() ==> s[k] != '\n'
}

/// The status line is a single line.
proof fn lemma_status_line_no_newline(t: StatusTally)
    ensures
        no_newline(status_line(t)),
{
    reveal_strlit(" added");
    reveal_strlit(" modified");
    reveal_strlit(" renamed");
    reveal_strlit(" copied");
    reveal_strlit(" deleted");
    reveal_strlit(" type-changed");
    reveal_strlit(" conflicted");
    reveal_strlit(" untracked");
    reveal_strlit(" ignored");
    reveal_strlit(", ");
    reveal_strlit("nothing to commit, working tree clean");
    let p1 = count_part(t.added, " added"@);
    let p2 = count_part(t.modified, " modified"@);
    let p3 = count_part(t.renamed, " renamed"@);
    let p4 = count_part(t.copied, " copied"@);
    let p5 = count_part(t.deleted, " deleted"@);
    let p6 = count_part(t.type_changed, " type-changed"@);
    let p7 = count_part(t.conflicted, " conflicted"@);
    let p8 = count_part(t.untracked, " untracked"@);
    let p9 = count_part(t.ignored, " ignored"@);
    lemma_count_part_no_newline(t.added, " added"@);
    lemma_count_part_no_newline(t.modified, " modified"@);
    lemma_count_part_no_newline(t.renamed, " renamed"@);
    lemma_count_part_no_newline(t.copied, " copied"@);
    lemma_count_part_no_newline(t.deleted, " deleted"@);
    lemma_count_part_no_newline(t.type_changed, " type-changed"@);
    lemma_count_part_no_newline(t.conflicted, " conflicted"@);
    lemma_count_part_no_newline(t.untracked, " untracked"@);
    lemma_count_part_no_newline(t.ignored, " ignored"@);
    lemma_parts_concat_no_newline(p1, p2);
    lemma_parts_concat_no_newline(p1 + p2, p3);
    lemma_parts_concat_no_newline(p1 + p2 + p3, p4);
    lemma_parts_concat_no_newline(p1 + p2 + p3 + p4, p5);
    lemma_parts_concat_no_newline(p1 + p2 + p3 + p4 + p5, p6);
    lemma_parts_concat_no_newline(p1 + p2 + p3 + p4 + p5 + p6, p7);
    lemma_parts_concat_no_newline(p1 + p2 + p3 + p4 + p5 + p6 + p7, p8);
    lemma_parts_concat_no_newline(p1 + p2 + p3 + p4 + p5 + p6 + p7 + p8, p9);
    assert(status_parts(t) == p1 + p2 + p3 + p4 + p5 + p6 + p7 + p8 + p9);
    lemma_join_no_newline(status_parts(t), ", "@);
}

/// The shape of the status summary: with no `## ` header it is the status
/// line alone, a single line; otherwise `Branch: `, the branch of the last
/// header, a line break, and the status line.
pub proof fn law_status_text_shape(porcelain: Seq<char>)
    ensures
        last_header(lines_of(porcelain)) is None ==> filter_status_spec(porcelain) == status_line(
            tally_of(lines_of(porcelain)),
        ) && no_newline(filter_status_spec(porcelain)),
        last_header(lines_of(porcelain)) matches Some(r) ==> filter_status_spec(porcelain) == "Branch: "@
            + branch_of(r) + "\n"@ + status_line(tally_of(lines_of(porcelain))),
{
    lemma_tally_branch(lines_of(porcelain));
    lemma_status_line_no_newline(tally_of(lines_of(porcelain)));
}

/// Over the status letters of porcelain v1, where `U` only ever stands with
/// `A`, `D` or `U`, an entry is unmerged exactly when its code is one of
/// `DD`, `AU`, `UD`, `UA`, `DU`, `AA`, `UU`.
pub proof fn law_unmerged_codes(x: char, y: char)
    requires
        x == 'U' || y == 'U' ==> (x == 'A' || x == 'D' || x == 'U') && (y == 'A' || y == 'D' || y
            == 'U'),
    ensures
        is_unmerged_spec(x, y) <==> ((x == 'D' && y == 'D') || (x == 'A' && y == 'U') || (x == 'U'
            && y == 'D') || (x == 'U' && y == 'A') || (x == 'D' && y == 'U') || (x == 'A' && y
            == 'A') || (x == 'U' && y == 'U')),
{
}

/// One if `b` holds, zero otherwise.
pub open spec fn one_if(b: bool) -> nat {
    if b {
        1
    } else {
        0
    }
}

/// How an entry line is counted, kind by kind. `??` is one untracked entry
/// and `!!` one ignored entry; an unmerged pair (a `U` in either letter, or
/// `AA`, `DD`) is one conflict. Any other entry counts once as modified when
/// either letter is `M`, once as deleted when either letter is `D`, once as
/// type-changed when either letter is `T`, and once as added, renamed or
/// copied when the index letter is `A`, `R` or `C`. Nothing else changes.
pub proof fn law_entry_line_counts(t: StatusTally, line: Seq<char>)
    requires
        is_entry_line(line),
    ensures
        ({
            let x = line[0];
            let y = work_letter(line);
            let r = status_step(t, line);
            &&& r.branch == t.branch
            &&& (x == '?' && y == '?') ==> r == StatusTally { untracked: t.untracked + 1, ..t }
            &&& (x == '!' && y == '!') ==> r == StatusTally { ignored: t.ignored + 1, ..t }
            &&& (!(x == '?' && y == '?') && !(x == '!' && y == '!') && (x == 'U' || y == 'U' || (x
                == 'A' && y == 'A') || (x == 'D' && y == 'D'))) ==> r == StatusTally {
                conflicted: t.conflicted + 1,
                ..t
            }
            &&& (!(x == '?' && y == '?') && !(x == '!' && y == '!') && !(x == 'U' || y == 'U' || (x
                == 'A' && y == 'A') || (x == 'D' && y == 'D'))) ==> {
                &&& r.modified == t.modified + one_if(x == 'M' || y == 'M')
                &&& r.deleted == t.deleted + one_if(x == 'D' || y == 'D')
                &&& r.type_changed == t.type_changed + one_if(x == 'T' || y == 'T')
                &&& r.added == t.added + one_if(x == 'A')
                &&& r.renamed == t.renamed + one_if(x == 'R')
                &&& r.copied == t.copied + one_if(x == 'C')
                &&& r.conflicted == t.conflicted
                &&& r.untracked == t.untracked
                &&& r.ignored == t.ignored
            }
        }),
{
}

/// A `## ` header sets the branch and counts nothing; a line that is neither
/// a header nor an entry changes nothing.
pub proof fn law_non_entry_lines_count_nothing(t: StatusTally, line: Seq<char>)
    requires
        !is_entry_line(line),
    ensures
        total(status_step(t, line)) == total(t),
        !starts_with_seq(line, header_mark()) ==> status_step(t, line) == t,
        starts_with_seq(line, header_mark()) ==> status_step(t, line) == (StatusTally {
            branch: Some(branch_of(line.skip(header_mark().len() as int))),
            ..t
        }),
{
}

/// The tally of a single line.
proof fn lemma_one_line(l: Seq<char>)
    requires
        forall|k: int| 0 <= k < l.len() ==> l[k] != '\n',
        l.len() > 0,
    ensures
        lines_of(l) == seq![l],
        tally_of(lines_of(l)) == status_step(empty_tally(), l),
{
    lemma_lines_last(l);
    let ls = seq![l];
    assert(ls.drop_last() =~= Seq::<Seq<char>>::empty());
    assert(tally_of(ls.drop_last()) == empty_tally());
    assert(ls.last() == l);
}

/// The status line when exactly one kind was counted once.
proof fn lemma_single_part(t: StatusTally, n: nat, label: Seq<char>)
    requires
        status_parts(t) == count_part(n, label),
        n == 1,
    ensures
        status_line(t) == seq!['1'] + label,
{
    assert(decimal(1) == seq!['1']);
    assert(status_parts(t) =~= seq![seq!['1'] + label]);
}

/// A porcelain text of one worktree change ` M`, ` D` or ` T` (any path, no
/// header) is summarised as exactly `1 modified`, `1 deleted` or
/// `1 type-changed`.
pub proof fn law_single_worktree_change(l: Seq<char>)
    requires
        l.len() >= 2,
        l[0] == ' ',
        forall|k: int| 0 <= k < l.len() ==> l[k] != '\n',
    ensures
        l[1] == 'M' ==> filter_status_spec(l) == "1 modified"@,
        l[1] == 'D' ==> filter_status_spec(l) == "1 deleted"@,
        l[1] == 'T' ==> filter_status_spec(l) == "1 type-changed"@,
{
    lemma_one_line(l);
    lemma_two_bytes(l);
    reveal_strlit("## ");
    let e = empty_tally();
    let t = status_step(e, l);
    assert(!starts_with_seq(l, header_mark())) by {
        if starts_with_seq(l, header_mark()) {
            assert(l.take(3)[0] == l[0]);
            assert(header_mark()[0] == '#');
        }
    }
    assert(byte_len(l) >= 2);
    assert(work_letter(l) == l[1]);
    reveal_strlit(" modified");
    reveal_strlit(" deleted");
    reveal_strlit(" type-changed");
    reveal_strlit("1 modified");
    reveal_strlit("1 deleted");
    reveal_strlit("1 type-changed");
    if l[1] == 'M' {
        assert(t == StatusTally { modified: 1, ..e });
        assert(status_parts(t) =~= count_part(1, " modified"@));
        lemma_single_part(t, 1, " modified"@);
        assert(seq!['1'] + " modified"@ =~= "1 modified"@);
    } else if l[1] == 'D' {
        assert(t == StatusTally { deleted: 1, ..e });
        assert(status_parts(t) =~= count_part(1, " deleted"@));
        lemma_single_part(t, 1, " deleted"@);
        assert(seq!['1'] + " deleted"@ =~= "1 deleted"@);
    } else if l[1] == 'T' {
        assert(t == StatusTally { type_changed: 1, ..e });
        assert(status_parts(t) =~= count_part(1, " type-changed"@));
        lemma_single_part(t, 1, " type-changed"@);
        assert(seq!['1'] + " type-changed"@ =~= "1 type-changed"@);
    }
}

/// The last summary line is found when no later line is one.
proof fn lemma_last_pull_summary_at(ls: Seq<Seq<char>>, i: int)
    requires
        0 <= i < ls.len(),
        is_pull_summary(ls[i]),
        forall|j: int| i < j < ls.len() ==> !is_pull_summary(#[trigger] ls[j]),
    ensures
        last_pull_summary(ls) == Some(trim_seq(ls[i])),
    decreases ls.len(),
{
    if i < ls.len() - 1 {
        let init = ls.drop_last();
        assert(!is_pull_summary(ls[ls.len() - 1]));
        assert forall|j: int| i < j < init.len() implies !is_pull_summary(#[trigger] init[j]) by {
            assert(init[j] == ls[j]);
        }
        assert(init[i] == ls[i]);
        lemma_last_pull_summary_at(init, i);
    }
}

/// The pull summary is the last line that, trimmed, is a count of changed
/// files (`<digits> file changed...` or `<digits> files changed...`,
/// singular or plural, whatever follows) or `Already up to date.`: the lines
/// after it do not matter unless one of them is such a line too.
pub proof fn law_pull_keeps_final_summary(
    raw: Seq<char>,
    i: int,
    digits: Seq<char>,
    rest: Seq<char>,
)
    requires
        0 <= i < lines_of(raw).len(),
        digits.len() > 0,
        forall|k: int| 0 <= k < digits.len() ==> '0' <= #[trigger] digits[k] <= '9',
        trim_seq(lines_of(raw)[i]) == digits + " file changed"@ + rest || trim_seq(lines_of(raw)[i])
            == digits + " files changed"@ + rest || trim_seq(lines_of(raw)[i])
            == "Already up to date."@,
        forall|j: int| i < j < lines_of(raw).len() ==> !is_pull_summary(#[trigger] lines_of(raw)[j]),
    ensures
        filter_pull_spec(raw) == trim_seq(lines_of(raw)[i]),
{
    let ls = lines_of(raw);
    let t = trim_seq(ls[i]);
    reveal_strlit(" file changed");
    reveal_strlit(" files changed");
    if t != "Already up to date."@ {
        let d = digits.len() as int;
        assert forall|k: int| 0 <= k < d implies is_digit(t[k]) by {
            assert(t[k] == digits[k]);
        }
        assert(t[d] == ' ');
        lemma_leading_digits(t, d);
        if t == digits + " file changed"@ + rest {
            assert(t.skip(d).take((" file changed"@).len() as int) =~= " file changed"@);
        } else {
            assert(t.skip(d).take((" files changed"@).len() as int) =~= " files changed"@);
        }
        assert(is_change_summary(t));
    }
    assert(is_pull_summary(ls[i]));
    lemma_last_pull_summary_at(ls, i);
}

/// A (trimmed) line that opens a commit summary: `[`, and a `]` somewhere.
pub open spec fn opens_commit_line(t: Seq<char>) -> bool {
    t.len() > 0 && t[0] == '[' && exists|k: int| 0 <= k < t.len() && t[k] == ']'
}

proof fn lemma_commit_scan_at(ls: Seq<Seq<char>>, i: int, x: Seq<char>, msg: Seq<char>)
    requires
        0 <= i < ls.len(),
        trim_seq(ls[i]) == seq!['['] + x + seq![']'] + msg,
        forall|k: int| 0 <= k < x.len() ==> x[k] != ']',
        forall|j: int| 0 <= j < i ==> !opens_commit_line(#[trigger] trim_seq(ls[j])),
    ensures
        commit_scan(ls) == "ok "@ + x,
    decreases i,
{
    if i == 0 {
        let t = trim_seq(ls[0]);
        let e = x.len() as int + 1;
        assert forall|k: int| 0 <= k < e implies t[k] != ']' by {
            if k > 0 {
                assert(t[k] == x[k - 1]);
            }
        }
        assert(t[e] == ']');
        lemma_index_of_at(t, ']', e);
        assert(t.subrange(1, e) =~= x);
    } else {
        let t0 = trim_seq(ls[0]);
        assert(!opens_commit_line(t0));
        lemma_index_of(t0, ']');
        if t0.len() > 0 && t0[0] == '[' && index_of(t0, ']') is Some {
            let e = index_of(t0, ']').unwrap();
            assert(t0[e] == ']');
        }
        let rest = ls.drop_first();
        assert forall|j: int| 0 <= j < i - 1 implies !opens_commit_line(#[trigger] trim_seq(rest[j])) by {
            assert(rest[j] == ls[j + 1]);
        }
        assert(rest[i - 1] == ls[i]);
        lemma_commit_scan_at(rest, i - 1, x, msg);
    }
}

/// The commit summary is `ok ` and what the first line that opens with `[`
/// (and has a `]`) holds between its `[` and its first `]`: for a line
/// `[X] msg` with no `]` in `X`, it is `ok X`, whatever `msg` holds (a `]` in
/// the message does not count).
pub proof fn law_commit_takes_bracketed_head(raw: Seq<char>, i: int, x: Seq<char>, msg: Seq<char>)
    requires
        0 <= i < lines_of(raw).len(),
        trim_seq(lines_of(raw)[i]) == seq!['['] + x + seq![']'] + msg,
        forall|k: int| 0 <= k < x.len() ==> x[k] != ']',
        forall|j: int| 0 <= j < i ==> !opens_commit_line(#[trigger] trim_seq(lines_of(raw)[j])),
    ensures
        filter_commit_spec(raw) == "ok "@ + x,
{
    lemma_commit_scan_at(lines_of(raw), i, x, msg);
}

/// With no summary line, the pull summary is the last line that is not
/// blank, trimmed; when every line is blank it is `ok`.
pub proof fn law_pull_fallback_is_last_nonblank(raw: Seq<char>, i: int)
    requires
        forall|j: int| 0 <= j < lines_of(raw).len() ==> !is_pull_summary(#[trigger] lines_of(raw)[j]),
        -1 <= i < lines_of(raw).len(),
        i >= 0 ==> trim_seq(lines_of(raw)[i]).len() > 0,
        forall|j: int| i < j < lines_of(raw).len() ==> trim_seq(#[trigger] lines_of(raw)[j]).len() == 0,
    ensures
        i >= 0 ==> filter_pull_spec(raw) == trim_seq(lines_of(raw)[i]),
        i == -1 ==> filter_pull_spec(raw) == "ok"@,
{
    law_pull_fallback(raw);
    lemma_last_nonblank_at(lines_of(raw), i);
}

proof fn lemma_last_nonblank_at(ls: Seq<Seq<char>>, i: int)
    requires
        -1 <= i < ls.len(),
        i >= 0 ==> trim_seq(ls[i]).len() > 0,
        forall|j: int| i < j < ls.len() ==> trim_seq(#[trigger] ls[j]).len() == 0,
    ensures
        i >= 0 ==> last_nonblank_or_ok(ls) == trim_seq(ls[i]),
        i == -1 ==> last_nonblank_or_ok(ls) == "ok"@,
    decreases ls.len(),
{
    if ls.len() > 0 && i < ls.len() - 1 {
        let init = ls.drop_last();
        assert(trim_seq(ls[ls.len() - 1]).len() == 0);
        assert forall|j: int| i < j < init.len() implies trim_seq(#[trigger] init[j]).len() == 0 by {
            assert(init[j] == ls[j]);
        }
        if i >= 0 {
            assert(init[i] == ls[i]);
        }
        lemma_last_nonblank_at(init, i);
    }
}

/// A (trimmed) line that the push summary reports: a tracking line that
/// starts with `Branch`, the notice `Everything up-to-date`, or a ref update
/// that holds `->`.
pub open spec fn reports_push(t: Seq<char>) -> bool {
    ||| (t.len() >= 6 && t.take(6) == "Branch"@)
    ||| t == "Everything up-to-date"@
    ||| exists|k: int| 0 <= k && k + 1 < t.len() && #[trigger] t[k] == '-' && t[k + 1] == '>'
}

/// `contains_seq(t, "->")` is an arrow at some index.
proof fn lemma_arrow(t: Seq<char>)
    ensures
        contains_seq(t, "->"@) <==> exists|k: int|
            0 <= k && k + 1 < t.len() && #[trigger] t[k] == '-' && t[k + 1] == '>',
{
    reveal_strlit("->");
    lemma_find_seq(t, "->"@);
    if let Some(k) = find_seq(t, "->"@) {
        assert(t.subrange(k, k + 2)[0] == t[k]);
        assert(t.subrange(k, k + 2)[1] == t[k + 1]);
    }
    if exists|k: int| 0 <= k && k + 1 < t.len() && #[trigger] t[k] == '-' && t[k + 1] == '>' {
        let k = choose|k: int| 0 <= k && k + 1 < t.len() && #[trigger] t[k] == '-' && t[k + 1] == '>';
        assert(t.subrange(k, k + 2) =~= "->"@);
        assert(crate::text::occurs_at(t, "->"@, k));
    }
}

proof fn lemma_push_scan_at(ls: Seq<Seq<char>>, i: int)
    requires
        0 <= i <= ls.len(),
        forall|j: int| 0 <= j < i ==> !reports_push(#[trigger] trim_seq(ls[j])),
        i < ls.len() ==> reports_push(trim_seq(ls[i])),
    ensures
        i == ls.len() ==> push_scan(ls) == "ok"@,
        i < ls.len() ==> push_scan(ls) == (if (trim_seq(ls[i]).len() >= 6 && trim_seq(ls[i]).take(6)
            == "Branch"@) || trim_seq(ls[i]) == "Everything up-to-date"@ {
            trim_seq(ls[i])
        } else {
            "ok "@ + trim_seq(ls[i])
        }),
    decreases i,
{
    reveal_strlit("Branch");
    if ls.len() > 0 {
        let t = trim_seq(ls[0]);
        lemma_arrow(t);
        if i > 0 {
            assert(!reports_push(t));
            let rest = ls.drop_first();
            assert forall|j: int| 0 <= j < i - 1 implies !reports_push(#[trigger] trim_seq(rest[j])) by {
                assert(rest[j] == ls[j + 1]);
            }
            if i < ls.len() {
                assert(rest[i - 1] == ls[i]);
            }
            lemma_push_scan_at(rest, i - 1);
        }
    }
}

/// The push summary reports the first line (trimmed) that is a tracking
/// line (`Branch ...`) or `Everything up-to-date`, as it is, or a ref update
/// (`a -> b`), after `ok `; with no such line it is `ok`.
pub proof fn law_push_reports_first_match(raw: Seq<char>, i: int)
    requires
        0 <= i <= lines_of(raw).len(),
        forall|j: int| 0 <= j < i ==> !reports_push(#[trigger] trim_seq(lines_of(raw)[j])),
        i < lines_of(raw).len() ==> reports_push(trim_seq(lines_of(raw)[i])),
    ensures
        i == lines_of(raw).len() ==> filter_push_spec(raw) == "ok"@,
        i < lines_of(raw).len() ==> filter_push_spec(raw) == (if (trim_seq(lines_of(raw)[i]).len()
            >= 6 && trim_seq(lines_of(raw)[i]).take(6) == "Branch"@) || trim_seq(lines_of(raw)[i])
            == "Everything up-to-date"@ {
            trim_seq(lines_of(raw)[i])
        } else {
            "ok "@ + trim_seq(lines_of(raw)[i])
        }),
{
    lemma_push_scan_at(lines_of(raw), i);
}

/// A porcelain text of one entry (any path, no header) whose code counts a
/// single kind is summarised as exactly `1 <kind>`: `A ` added, `M ` modified,
/// `R ` renamed, `C ` copied, `D ` deleted, `T ` type-changed, `UU`
/// conflicted, `??` untracked, `!!` ignored.
pub proof fn law_single_entry_labels(l: Seq<char>)
    requires
        l.len() >= 2,
        forall|k: int| 0 <= k < l.len() ==> l[k] != '\n',
    ensures
        l[0] == 'A' && l[1] == ' ' ==> filter_status_spec(l) == "1 added"@,
        l[0] == 'M' && l[1] == ' ' ==> filter_status_spec(l) == "1 modified"@,
        l[0] == 'R' && l[1] == ' ' ==> filter_status_spec(l) == "1 renamed"@,
        l[0] == 'C' && l[1] == ' ' ==> filter_status_spec(l) == "1 copied"@,
        l[0] == 'D' && l[1] == ' ' ==> filter_status_spec(l) == "1 deleted"@,
        l[0] == 'T' && l[1] == ' ' ==> filter_status_spec(l) == "1 type-changed"@,
        l[0] == 'U' && l[1] == 'U' ==> filter_status_spec(l) == "1 conflicted"@,
        l[0] == '?' && l[1] == '?' ==> filter_status_spec(l) == "1 untracked"@,
        l[0] == '!' && l[1] == '!' ==> filter_status_spec(l) == "1 ignored"@,
{
    lemma_one_line(l);
    lemma_two_bytes(l);
    reveal_strlit("## ");
    let e = empty_tally();
    let t = status_step(e, l);
    assert(l[0] != '#' ==> !starts_with_seq(l, header_mark())) by {
        if l[0] != '#' && starts_with_seq(l, header_mark()) {
            assert(l.take(3)[0] == l[0]);
            assert(header_mark()[0] == '#');
        }
    }
    assert(work_letter(l) == l[1]);
    reveal_strlit("1");
    reveal_strlit(" added");
    reveal_strlit("1 added");
    reveal_strlit(" modified");
    reveal_strlit("1 modified");
    reveal_strlit(" renamed");
    reveal_strlit("1 renamed");
    reveal_strlit(" copied");
    reveal_strlit("1 copied");
    reveal_strlit(" deleted");
    reveal_strlit("1 deleted");
    reveal_strlit(" type-changed");
    reveal_strlit("1 type-changed");
    reveal_strlit(" conflicted");
    reveal_strlit("1 conflicted");
    reveal_strlit(" untracked");
    reveal_strlit("1 untracked");
    reveal_strlit(" ignored");
    reveal_strlit("1 ignored");
    if l[0] == 'A' && l[1] == ' ' {
        assert("1 added"@ =~= "1"@ + " added"@);
        lemma_label_one(t, StatusTally { added: 1, ..e }, " added"@, "1 added"@);
    } else if l[0] == 'M' && l[1] == ' ' {
        assert("1 modified"@ =~= "1"@ + " modified"@);
        lemma_label_one(t, StatusTally { modified: 1, ..e }, " modified"@, "1 modified"@);
    } else if l[0] == 'R' && l[1] == ' ' {
        assert("1 renamed"@ =~= "1"@ + " renamed"@);
        lemma_label_one(t, StatusTally { renamed: 1, ..e }, " renamed"@, "1 renamed"@);
    } else if l[0] == 'C' && l[1] == ' ' {
        assert("1 copied"@ =~= "1"@ + " copied"@);
        lemma_label_one(t, StatusTally { copied: 1, ..e }, " copied"@, "1 copied"@);
    } else if l[0] == 'D' && l[1] == ' ' {
        assert("1 deleted"@ =~= "1"@ + " deleted"@);
        lemma_label_one(t, StatusTally { deleted: 1, ..e }, " deleted"@, "1 deleted"@);
    } else if l[0] == 'T' && l[1] == ' ' {
        assert("1 type-changed"@ =~= "1"@ + " type-changed"@);
        lemma_label_one(t, StatusTally { type_changed: 1, ..e }, " type-changed"@, "1 type-changed"@);
    } else if l[0] == 'U' && l[1] == 'U' {
        assert("1 conflicted"@ =~= "1"@ + " conflicted"@);
        lemma_label_one(t, StatusTally { conflicted: 1, ..e }, " conflicted"@, "1 conflicted"@);
    } else if l[0] == '?' && l[1] == '?' {
        assert("1 untracked"@ =~= "1"@ + " untracked"@);
        lemma_label_one(t, StatusTally { untracked: 1, ..e }, " untracked"@, "1 untracked"@);
    } else if l[0] == '!' && l[1] == '!' {
        assert("1 ignored"@ =~= "1"@ + " ignored"@);
        lemma_label_one(t, StatusTally { ignored: 1, ..e }, " ignored"@, "1 ignored"@);
    }
}

/// The status line of a tally with one count of one, under its label.
proof fn lemma_label_one(t: StatusTally, expected: StatusTally, label: Seq<char>, text: Seq<char>)
    requires
        t == expected,
        t.branch is None,
        total(t) == 1,
        label == " added"@ && t.added == 1 || label == " modified"@ && t.modified == 1 || label
            == " renamed"@ && t.renamed == 1 || label == " copied"@ && t.copied == 1 || label
            == " deleted"@ && t.deleted == 1 || label == " type-changed"@ && t.type_changed == 1
            || label == " conflicted"@ && t.conflicted == 1 || label == " untracked"@ && t.untracked
            == 1 || label == " ignored"@ && t.ignored == 1,
        text == "1"@ + label,
    ensures
        render_status(t) == text,
{
    reveal_strlit("1");
    assert(decimal(1) =~= "1"@);
    assert(status_parts(t) =~= seq!["1"@ + label]);
}

} // verus!
