//! Deciding which `git` runs a request needs and what it shows.

pub mod git;

use vstd::prelude::*;

use crate::text::{chars_of, join, join_seq, string_of, views};

verus! {

/// The views of a sequence of strings.
pub open spec fn str_views(v: Seq<String>) -> Seq<Seq<char>> {
    v.map_values(|s: String| s@)
}

/// The command as typed after `git`: the words joined by single spaces.
pub open spec fn git_cmd_text(sub: Seq<char>, args: Seq<Seq<char>>) -> Seq<char> {
    join_seq(seq![sub] + args, " "@)
}

/// The text of `git <sub> <args...>` after `git`, for display.
pub fn format_git_cmd(sub: &str, args: &[String]) -> (res: String)
    ensures
        res@ == git_cmd_text(sub@, str_views(args@)),
{
    let mut words: Vec<Vec<char>> = Vec::new();
    words.push(chars_of(sub));
    let n = args.len();
    for i in 0..n
        invariant
            n == args@.len(),
            views(words@) == seq![sub@] + str_views(args@).take(i as int),
    {
        let ghost before = words@;
        words.push(chars_of(args[i].as_str()));
        assert(views(words@) =~= views(before).push(args@[i as int]@));
        assert(str_views(args@).take(i + 1) =~= str_views(args@).take(i as int).push(
            args@[i as int]@,
        ));
    }
    assert(str_views(args@).take(n as int) =~= str_views(args@));
    let sep = chars_of(" ");
    let text = join(&words, sep.as_slice());
    string_of(text.as_slice())
}

} // verus!
