//! `git` invocations: splitting the words into global options, subcommand and
//! subcommand arguments, and the decisions of a filtered run.

use vstd::prelude::*;

use crate::commands::str_views;
use crate::filters::git::{
    filter_commit, filter_commit_spec, filter_diff, filter_diff_spec, filter_log, filter_pull,
    filter_pull_spec, filter_push, filter_push_spec, filter_status, filter_status_spec,
    status_input_is_sound, status_input_sound,
};
use crate::filters::{estimate_tokens, tokens_for};
use crate::text::{byte_len, chars_eq, chars_of, push_all, string_of};

verus! {

// ---------------------------------------------------------------------------
// Invocation parsing
// ---------------------------------------------------------------------------

/// A `git` invocation split into its parts.
pub struct ParsedGitInvocation {
    /// Options before the subcommand (`-C <path>`, `-c <name=value>`, ...).
    pub global_args: Vec<String>,
    /// The subcommand, when there is one.
    pub subcommand: Option<String>,
    /// What follows the subcommand.
    pub sub_args: Vec<String>,
}

/// The parts of an invocation as character sequences.
#[verifier::ext_equal]
pub struct InvocationModel {
    pub global_args: Seq<Seq<char>>,
    pub subcommand: Option<Seq<char>>,
    pub sub_args: Seq<Seq<char>>,
}

/// The view of an optional string.
pub open spec fn opt_view(o: Option<String>) -> Option<Seq<char>> {
    match o {
        Some(s) => Some(s@),
        None => None,
    }
}

impl View for ParsedGitInvocation {
    type V = InvocationModel;

    open spec fn view(&self) -> InvocationModel {
        InvocationModel {
            global_args: str_views(self.global_args@),
            subcommand: opt_view(self.subcommand),
            sub_args: str_views(self.sub_args@),
        }
    }
}

/// A global option of git that takes the next word as its value.
pub open spec fn takes_value(arg: Seq<char>) -> bool {
    ||| arg == "-C"@
    ||| arg == "-c"@
    ||| arg == "--exec-path"@
    ||| arg == "--git-dir"@
    ||| arg == "--work-tree"@
    ||| arg == "--namespace"@
    ||| arg == "--super-prefix"@
    ||| arg == "--config-env"@
    ||| arg == "--attr-source"@
}

/// A global option after which git runs no subcommand (help, version, paths).
pub open spec fn short_circuit_flag(arg: Seq<char>) -> bool {
    ||| arg == "-h"@
    ||| arg == "--help"@
    ||| arg == "-v"@
    ||| arg == "--version"@
    ||| arg == "--html-path"@
    ||| arg == "--man-path"@
    ||| arg == "--info-path"@
}

/// Some global option is a short-circuit flag.
pub open spec fn short_circuits(global_args: Seq<Seq<char>>) -> bool {
    exists|i: int| 0 <= i < global_args.len() && short_circuit_flag(#[trigger] global_args[i])
}

/// A word that is read as an option: it starts with `-` and is not `-` alone.
pub open spec fn is_option_word(t: Seq<char>) -> bool {
    t.len() > 0 && t[0] == '-' && t != "-"@
}

/// The invocation with `g` put in front of its global options.
pub open spec fn with_globals(g: Seq<Seq<char>>, m: InvocationModel) -> InvocationModel {
    InvocationModel { global_args: g + m.global_args, ..m }
}

/// What follows `words[..j]`: the word at `j` as subcommand and the rest as
/// its arguments.
pub open spec fn tail_at(words: Seq<Seq<char>>, j: int) -> InvocationModel {
    InvocationModel {
        global_args: seq![],
        subcommand: if j < words.len() {
            Some(words[j])
        } else {
            None
        },
        sub_args: if j < words.len() {
            words.skip(j + 1)
        } else {
            seq![]
        },
    }
}

/// How the words after `git` split: options are global up to the first word
/// that is not an option; `--` ends the options; an option that takes a
/// value takes the next word with it, and when that word is missing there is
/// no subcommand.
pub open spec fn parse_words(words: Seq<Seq<char>>) -> InvocationModel
    decreases words.len(),
{
    if words.len() == 0 {
        tail_at(words, 0)
    } else if words[0] == "--"@ {
        with_globals(seq![words[0]], tail_at(words, 1))
    } else if !is_option_word(words[0]) {
        tail_at(words, 0)
    } else if takes_value(words[0]) {
        if words.len() < 2 {
            with_globals(words, tail_at(words, 1))
        } else {
            with_globals(seq![words[0], words[1]], parse_words(words.skip(2)))
        }
    } else {
        with_globals(seq![words[0]], parse_words(words.skip(1)))
    }
}

/// The words after `git`: the first one and the rest.
pub open spec fn invocation_words(sub: Seq<char>, args: Seq<Seq<char>>) -> Seq<Seq<char>> {
    seq![sub] + args
}

/// The subcommand as a (possibly empty) sequence of words.
pub open spec fn opt_words(o: Option<Seq<char>>) -> Seq<Seq<char>> {
    match o {
        Some(s) => seq![s],
        None => seq![],
    }
}

/// All words of an invocation, in order.
pub open spec fn flatten(m: InvocationModel) -> Seq<Seq<char>> {
    m.global_args + opt_words(m.subcommand) + m.sub_args
}

/// Whether `s` holds exactly the characters of `lit`.
fn string_is(s: &String, lit: &str) -> (res: bool)
    ensures
        res == (s@ == lit@),
{
    let a = chars_of(s.as_str());
    let b = chars_of(lit);
    chars_eq(a.as_slice(), b.as_slice())
}

/// Whether a global option takes the next word as its value.
pub fn takes_global_option_value(arg: &str) -> (res: bool)
    ensures
        res == takes_value(arg@),
{
    let a = arg.to_owned();
    string_is(&a, "-C") || string_is(&a, "-c") || string_is(&a, "--exec-path") || string_is(
        &a,
        "--git-dir",
    ) || string_is(&a, "--work-tree") || string_is(&a, "--namespace") || string_is(
        &a,
        "--super-prefix",
    ) || string_is(&a, "--config-env") || string_is(&a, "--attr-source")
}

/// Whether the global options hold a flag after which git runs no
/// subcommand (`--help`, `--version`, ...).
pub fn global_flags_short_circuit(global_args: &[String]) -> (res: bool)
    ensures
        res == short_circuits(str_views(global_args@)),
{
    let n = global_args.len();
    for i in 0..n
        invariant
            n == global_args@.len(),
            forall|k: int| 0 <= k < i ==> !short_circuit_flag(#[trigger] str_views(global_args@)[k]),
    {
        let a = &global_args[i];
        if string_is(a, "-h") || string_is(a, "--help") || string_is(a, "-v") || string_is(
            a,
            "--version",
        ) || string_is(a, "--html-path") || string_is(a, "--man-path") || string_is(
            a,
            "--info-path",
        ) {
            assert(short_circuit_flag(str_views(global_args@)[i as int]));
            return true;
        }
        assert(!short_circuit_flag(str_views(global_args@)[i as int]));
    }
    false
}

/// Copies of the words from index `i` on.
fn words_from(words: &Vec<String>, i: usize) -> (res: Vec<String>)
    requires
        i <= words@.len(),
    ensures
        str_views(res@) == str_views(words@).skip(i as int),
{
    let mut res: Vec<String> = Vec::new();
    let n = words.len();
    let mut k = i;
    while k < n
        invariant
            i <= k <= n == words@.len(),
            str_views(res@) == str_views(words@).subrange(i as int, k as int),
        decreases n - k,
    {
        let ghost before = res@;
        res.push(words[k].clone());
        assert(str_views(res@) =~= str_views(before).push(words@[k as int]@));
        assert(str_views(words@).subrange(i as int, k + 1) =~= str_views(words@).subrange(
            i as int,
            k as int,
        ).push(words@[k as int]@));
        k = k + 1;
    }
    assert(str_views(words@).subrange(i as int, n as int) =~= str_views(words@).skip(i as int));
    res
}

/// The invocation made of the given global options and what follows
/// `words[..j]`.
fn finish_at(global_args: Vec<String>, words: &Vec<String>, j: usize) -> (res:
    ParsedGitInvocation)
    requires
        j <= words@.len(),
    ensures
        res@ == with_globals(str_views(global_args@), tail_at(str_views(words@), j as int)),
{
    if j < words.len() {
        let sub = words[j].clone();
        let rest = words_from(words, j + 1);
        let res = ParsedGitInvocation { global_args, subcommand: Some(sub), sub_args: rest };
        assert(res@.global_args =~= str_views(global_args@) + Seq::<Seq<char>>::empty());
        res
    } else {
        let res = ParsedGitInvocation { global_args, subcommand: None, sub_args: Vec::new() };
        assert(res@.global_args =~= str_views(global_args@) + Seq::<Seq<char>>::empty());
        assert(res@.sub_args =~= Seq::<Seq<char>>::empty());
        res
    }
}

/// Split `git <sub> <args...>` into global options, subcommand and
/// subcommand arguments.
pub fn parse_git_invocation(sub: &str, args: &[String]) -> (res: ParsedGitInvocation)
    ensures
        res@ == parse_words(invocation_words(sub@, str_views(args@))),
{
    let mut words: Vec<String> = Vec::new();
    words.push(sub.to_owned());
    let n = args.len();
    for i in 0..n
        invariant
            n == args@.len(),
            str_views(words@) == seq![sub@] + str_views(args@).take(i as int),
    {
        let ghost before = words@;
        words.push(args[i].clone());
        assert(str_views(words@) =~= str_views(before).push(args@[i as int]@));
        assert(str_views(args@).take(i + 1) =~= str_views(args@).take(i as int).push(
            args@[i as int]@,
        ));
    }
    assert(str_views(args@).take(n as int) =~= str_views(args@));
    let ghost all = str_views(words@);
    assert(all == invocation_words(sub@, str_views(args@)));
    let len = words.len();
    let mut global_args: Vec<String> = Vec::new();
    let mut i: usize = 0;
    assert(all.skip(0) =~= all);
    assert(with_globals(Seq::empty(), parse_words(all)) =~= parse_words(all));
    loop
        invariant
            len == words@.len(),
            all == str_views(words@),
            all == invocation_words(sub@, str_views(args@)),
            i <= len,
            parse_words(all) == with_globals(str_views(global_args@), parse_words(all.skip(i as int))),
        decreases len - i,
    {
        let ghost rest = all.skip(i as int);
        let ghost g = str_views(global_args@);
        if i == len {
            let res = finish_at(global_args, &words, len);
            assert(rest.len() == 0);
            assert(tail_at(rest, 0) =~= tail_at(all, len as int));
            return res;
        }
        assert(rest[0] == words@[i as int]@);
        if string_is(&words[i], "--") {
            global_args.push(words[i].clone());
            let res = finish_at(global_args, &words, i + 1);
            proof {
                assert(str_views(global_args@) =~= g.push(rest[0]));
                if i + 1 < len {
                    assert(rest[1] == all[i + 1]);
                    assert(rest.skip(2) =~= all.skip(i + 2));
                }
                assert(with_globals(g, with_globals(seq![rest[0]], tail_at(rest, 1))) =~= with_globals(
                    str_views(global_args@),
                    tail_at(all, i + 1),
                ));
            }
            return res;
        }
        let first = chars_of(words[i].as_str());
        if first.len() == 0 || first[0] != '-' || string_is(&words[i], "-") {
            let res = finish_at(global_args, &words, i);
            proof {
                assert(rest.skip(1) =~= all.skip(i + 1));
                assert(with_globals(g, tail_at(rest, 0)) =~= with_globals(g, tail_at(all, i as int)));
            }
            return res;
        }
        global_args.push(words[i].clone());
        if takes_global_option_value(words[i].as_str()) {
            if i + 1 < len {
                global_args.push(words[i + 1].clone());
                proof {
                    assert(rest[1] == words@[i + 1]@);
                    assert(str_views(global_args@) =~= g + seq![rest[0], rest[1]]);
                    assert(rest.skip(2) =~= all.skip(i + 2));
                    assert(with_globals(g, with_globals(seq![rest[0], rest[1]], parse_words(rest.skip(2))))
                        =~= with_globals(str_views(global_args@), parse_words(all.skip(i + 2))));
                }
                i = i + 2;
            } else {
                let res = finish_at(global_args, &words, len);
                proof {
                    assert(rest =~= seq![rest[0]]);
                    assert(str_views(global_args@) =~= g + rest);
                    assert(with_globals(g, with_globals(rest, tail_at(rest, 1))) =~= with_globals(
                        str_views(global_args@),
                        tail_at(all, len as int),
                    ));
                }
                return res;
            }
        } else {
            proof {
                assert(str_views(global_args@) =~= g + seq![rest[0]]);
                assert(rest.skip(1) =~= all.skip(i + 1));
                assert(with_globals(g, with_globals(seq![rest[0]], parse_words(rest.skip(1))))
                    =~= with_globals(str_views(global_args@), parse_words(all.skip(i + 1))));
            }
            i = i + 1;
        }
    }
}

// ---------------------------------------------------------------------------
// A filtered run
// ---------------------------------------------------------------------------

/// The output of one `git` run: stdout followed by stderr, and the exit code.
pub struct GitOutput {
    pub combined_output: String,
    pub exit_code: i32,
}

/// The output of a run as a character sequence and an exit code.
pub struct OutputModel {
    pub text: Seq<char>,
    pub exit_code: i32,
}

impl View for GitOutput {
    type V = OutputModel;

    open spec fn view(&self) -> OutputModel {
        OutputModel { text: self.combined_output@, exit_code: self.exit_code }
    }
}

impl GitOutput {
    /// The run succeeded: its exit code is 0.
    pub fn success(&self) -> (res: bool)
        ensures
            res == (self.exit_code == 0),
    {
        self.exit_code == 0
    }

    /// The output of a run from its two streams and its exit status: stdout
    /// followed by stderr; a run that ended without an exit code (killed by a
    /// signal) counts as exit code 1.
    pub fn from_streams(stdout: String, stderr: String, code: Option<i32>) -> (res: GitOutput)
        ensures
            res.combined_output@ == stdout@ + stderr@,
            res.exit_code == match code {
                Some(c) => c,
                None => 1,
            },
    {
        let mut all = chars_of(stdout.as_str());
        let err = chars_of(stderr.as_str());
        push_all(&mut all, err.as_slice());
        let exit_code = match code {
            Some(c) => c,
            None => 1,
        };
        GitOutput { combined_output: string_of(all.as_slice()), exit_code }
    }
}

/// The result of a run: what is shown, what git printed, their sizes in
/// bytes, git's exit code, and the intermediate text the filter read when
/// it read one other than git's output.
pub struct FilterResult {
    pub filtered_output: String,
    pub raw_output: String,
    pub raw_bytes: usize,
    pub filtered_bytes: usize,
    pub exit_code: i32,
    pub compact_input: Option<String>,
}

/// A result as character sequences.
#[verifier::ext_equal]
pub struct ResultModel {
    pub filtered_output: Seq<char>,
    pub raw_output: Seq<char>,
    pub raw_bytes: usize,
    pub filtered_bytes: usize,
    pub exit_code: i32,
    pub compact_input: Option<Seq<char>>,
}

impl View for FilterResult {
    type V = ResultModel;

    open spec fn view(&self) -> ResultModel {
        ResultModel {
            filtered_output: self.filtered_output@,
            raw_output: self.raw_output@,
            raw_bytes: self.raw_bytes,
            filtered_bytes: self.filtered_bytes,
            exit_code: self.exit_code,
            compact_input: opt_view(self.compact_input),
        }
    }
}

/// The number of bytes of a text, as `str::len` reports it.
pub open spec fn byte_count(s: Seq<char>) -> usize {
    byte_len(s) as usize
}

/// Git's output shown unchanged.
pub open spec fn passthrough_model(raw: OutputModel) -> ResultModel {
    ResultModel {
        filtered_output: raw.text,
        raw_output: raw.text,
        raw_bytes: byte_count(raw.text),
        filtered_bytes: byte_count(raw.text),
        exit_code: raw.exit_code,
        compact_input: None,
    }
}

/// Git's output replaced by `filtered`.
pub open spec fn filtered_model(
    raw: OutputModel,
    filtered: Seq<char>,
    compact: Option<Seq<char>>,
) -> ResultModel {
    ResultModel {
        filtered_output: filtered,
        raw_output: raw.text,
        raw_bytes: byte_count(raw.text),
        filtered_bytes: byte_count(filtered),
        exit_code: raw.exit_code,
        compact_input: compact,
    }
}

/// The number of bytes of a string.
fn string_bytes(s: &String) -> (res: usize)
    ensures
        res == byte_count(s@),
{
    s.as_str().len()
}

/// The result that shows git's output unchanged.
pub fn passthrough_result(raw: GitOutput) -> (res: FilterResult)
    ensures
        res@ == passthrough_model(raw@),
{
    let raw_output = raw.combined_output;
    let raw_bytes = string_bytes(&raw_output);
    FilterResult {
        filtered_output: raw_output.clone(),
        raw_output,
        raw_bytes,
        filtered_bytes: raw_bytes,
        exit_code: raw.exit_code,
        compact_input: None,
    }
}

/// The result that shows `filtered_output` in place of git's output.
pub fn filtered_result(raw: GitOutput, filtered_output: String, compact_input: Option<String>) -> (res:
    FilterResult)
    ensures
        res@ == filtered_model(raw@, filtered_output@, opt_view(compact_input)),
{
    let raw_output = raw.combined_output;
    let raw_bytes = string_bytes(&raw_output);
    let filtered_bytes = string_bytes(&filtered_output);
    FilterResult {
        filtered_output,
        raw_output,
        raw_bytes,
        filtered_bytes,
        exit_code: raw.exit_code,
        compact_input,
    }
}

/// How a subcommand's output is compacted.
pub enum FilterKind {
    Passthrough,
    Status,
    Diff,
    Log,
    Pull,
    Push,
    Commit,
    Add,
}

/// The filter of an invocation: none without a subcommand or with a global
/// flag that makes git skip the subcommand; otherwise by the subcommand.
pub open spec fn kind_of(m: InvocationModel) -> FilterKind {
    match m.subcommand {
        None => FilterKind::Passthrough,
        Some(s) => if short_circuits(m.global_args) {
            FilterKind::Passthrough
        } else if s == "status"@ {
            FilterKind::Status
        } else if s == "diff"@ {
            FilterKind::Diff
        } else if s == "log"@ {
            FilterKind::Log
        } else if s == "pull"@ {
            FilterKind::Pull
        } else if s == "push"@ {
            FilterKind::Push
        } else if s == "commit"@ {
            FilterKind::Commit
        } else if s == "add"@ {
            FilterKind::Add
        } else {
            FilterKind::Passthrough
        },
    }
}

/// A `git` run to make: the words after `git`, and the name by which a
/// failure to start it is reported.
pub struct GitCommand {
    pub args: Vec<String>,
    pub label: String,
}

/// A run as character sequences.
#[verifier::ext_equal]
pub struct CommandModel {
    pub args: Seq<Seq<char>>,
    pub label: Seq<char>,
}

impl View for GitCommand {
    type V = CommandModel;

    open spec fn view(&self) -> CommandModel {
        CommandModel { args: str_views(self.args@), label: self.label@ }
    }
}

/// The first run: git with the user's words as they are.
pub open spec fn raw_command_model(m: InvocationModel) -> CommandModel {
    CommandModel {
        args: flatten(m),
        label: match m.subcommand {
            Some(s) => s,
            None => "<global>"@,
        },
    }
}

/// The second run, which produces the text a filter reads: porcelain v1 for
/// a plain `status`, `--stat` for `diff`, the compact pretty format for `log`.
pub open spec fn probe_command_model(m: InvocationModel) -> Option<CommandModel> {
    match kind_of(m) {
        FilterKind::Status => if m.sub_args.len() == 0 {
            Some(
                CommandModel {
                    args: m.global_args + seq!["status"@, "--porcelain=v1"@, "--branch"@],
                    label: "status"@,
                },
            )
        } else {
            None
        },
        FilterKind::Diff => Some(
            CommandModel {
                args: m.global_args + seq!["diff"@, "--stat"@, "--unified=1"@] + m.sub_args,
                label: "diff"@,
            },
        ),
        FilterKind::Log => Some(
            CommandModel {
                args: m.global_args + seq!["log"@, "--pretty=format:%h %s (%cr)"@, "-n"@, "20"@]
                    + m.sub_args,
                label: "log"@,
            },
        ),
        _ => None,
    }
}

/// The result once the first run is done, unless a second run is needed:
/// a failed run, an unfiltered subcommand and a `status` with arguments of
/// the user's show git's output; `pull`, `push` and `commit` are summarised
/// from it; `add` shows `ok`.
pub open spec fn finish_after_raw(m: InvocationModel, raw: OutputModel) -> Option<ResultModel> {
    if raw.exit_code != 0 {
        Some(passthrough_model(raw))
    } else {
        match kind_of(m) {
            FilterKind::Passthrough => Some(passthrough_model(raw)),
            FilterKind::Status => if m.sub_args.len() > 0 {
                Some(passthrough_model(raw))
            } else {
                None
            },
            FilterKind::Diff => None,
            FilterKind::Log => None,
            FilterKind::Pull => Some(filtered_model(raw, filter_pull_spec(raw.text), None)),
            FilterKind::Push => Some(filtered_model(raw, filter_push_spec(raw.text), None)),
            FilterKind::Commit => Some(filtered_model(raw, filter_commit_spec(raw.text), None)),
            FilterKind::Add => Some(filtered_model(raw, "ok"@, None)),
        }
    }
}

/// The result after the second run: a failed second run shows the output of
/// the first, and so does a status text with a header that cannot be read
/// with confidence; otherwise the filter's summary of the second run's output.
pub open spec fn finish_after_probe(
    m: InvocationModel,
    raw: OutputModel,
    probe: OutputModel,
) -> ResultModel {
    if probe.exit_code != 0 {
        passthrough_model(raw)
    } else {
        match kind_of(m) {
            FilterKind::Status => if status_input_sound(probe.text) {
                filtered_model(raw, filter_status_spec(probe.text), Some(probe.text))
            } else {
                passthrough_model(raw)
            },
            FilterKind::Diff => filtered_model(raw, filter_diff_spec(probe.text), Some(probe.text)),
            FilterKind::Log => filtered_model(raw, probe.text, Some(probe.text)),
            _ => passthrough_model(raw),
        }
    }
}

/// The whole run: its result from the outputs of the first and (when one is
/// made) the second run.
pub open spec fn run_model(m: InvocationModel, raw: OutputModel, probe: OutputModel) -> ResultModel {
    match finish_after_raw(m, raw) {
        Some(r) => r,
        None => finish_after_probe(m, raw, probe),
    }
}

/// What happens after the first run.
pub enum RawStep {
    /// The result is ready.
    Finished(FilterResult),
    /// A second run is needed; the first run's output is handed back.
    Probe(GitCommand, GitOutput),
}

/// The words of a `Vec<String>` from string slices.
fn owned_words(words: &[&str]) -> (res: Vec<String>)
    ensures
        res@.len() == words@.len(),
        forall|i: int| 0 <= i < words@.len() ==> #[trigger] res@[i]@ == words@[i]@,
{
    let mut res: Vec<String> = Vec::new();
    let n = words.len();
    for i in 0..n
        invariant
            n == words@.len(),
            res@.len() == i,
            forall|k: int| 0 <= k < i ==> #[trigger] res@[k]@ == words@[k]@,
    {
        res.push(words[i].to_owned());
    }
    res
}

/// Appends copies of `src` to `dst`.
fn push_words(dst: &mut Vec<String>, src: &Vec<String>)
    ensures
        str_views(final(dst)@) == str_views(old(dst)@) + str_views(src@),
{
    let n = src.len();
    for i in 0..n
        invariant
            n == src@.len(),
            str_views(dst@) == str_views(old(dst)@) + str_views(src@).take(i as int),
    {
        let ghost before = dst@;
        dst.push(src[i].clone());
        assert(str_views(dst@) =~= str_views(before).push(src@[i as int]@));
        assert(str_views(src@).take(i + 1) =~= str_views(src@).take(i as int).push(
            src@[i as int]@,
        ));
    }
    assert(str_views(src@).take(n as int) =~= str_views(src@));
}

/// The filter of a parsed invocation.
fn filter_kind(p: &ParsedGitInvocation) -> (res: FilterKind)
    ensures
        res == kind_of(p@),
{
    match &p.subcommand {
        None => FilterKind::Passthrough,
        Some(s) => {
            if global_flags_short_circuit(p.global_args.as_slice()) {
                FilterKind::Passthrough
            } else if string_is(s, "status") {
                FilterKind::Status
            } else if string_is(s, "diff") {
                FilterKind::Diff
            } else if string_is(s, "log") {
                FilterKind::Log
            } else if string_is(s, "pull") {
                FilterKind::Pull
            } else if string_is(s, "push") {
                FilterKind::Push
            } else if string_is(s, "commit") {
                FilterKind::Commit
            } else if string_is(s, "add") {
                FilterKind::Add
            } else {
                FilterKind::Passthrough
            }
        },
    }
}

/// The decisions of `git <sub> <args...>` run through the filters: which
/// runs of git to make and what to show of them. The caller makes the runs.
pub struct GitRun {
    pub invocation: ParsedGitInvocation,
}

impl GitRun {
    /// A run of `git <sub> <args...>`.
    pub fn new(sub: &str, args: &[String]) -> (res: GitRun)
        ensures
            res.invocation@ == parse_words(invocation_words(sub@, str_views(args@))),
    {
        GitRun { invocation: parse_git_invocation(sub, args) }
    }

    /// The first run: git with the user's words.
    pub fn raw_command(&self) -> (res: GitCommand)
        ensures
            res@ == raw_command_model(self.invocation@),
    {
        let p = &self.invocation;
        let mut args: Vec<String> = Vec::new();
        push_words(&mut args, &p.global_args);
        let label = match &p.subcommand {
            Some(s) => {
                let ghost before = args@;
                args.push(s.clone());
                assert(str_views(args@) =~= str_views(before).push(s@));
                s.clone()
            },
            None => "<global>".to_owned(),
        };
        push_words(&mut args, &p.sub_args);
        let res = GitCommand { args, label };
        assert(res@.args =~= flatten(p@));
        res
    }

    /// The second run of a filtered `status`, `diff` or `log`.
    fn probe_command(&self, kind: &FilterKind) -> (res: GitCommand)
        requires
            *kind == kind_of(self.invocation@),
            probe_command_model(self.invocation@) is Some,
        ensures
            Some(res@) == probe_command_model(self.invocation@),
    {
        let p = &self.invocation;
        let mut args: Vec<String> = Vec::new();
        push_words(&mut args, &p.global_args);
        let (extra, label) = match kind {
            FilterKind::Status => (owned_words(&["status", "--porcelain=v1", "--branch"]), "status"),
            FilterKind::Diff => (owned_words(&["diff", "--stat", "--unified=1"]), "diff"),
            _ => (owned_words(&["log", "--pretty=format:%h %s (%cr)", "-n", "20"]), "log"),
        };
        push_words(&mut args, &extra);
        match kind {
            FilterKind::Status => {},
            _ => push_words(&mut args, &p.sub_args),
        }
        let res = GitCommand { args, label: label.to_owned() };
        proof {
            let m = p@;
            match kind {
                FilterKind::Status => {
                    assert(str_views(extra@) =~= seq!["status"@, "--porcelain=v1"@, "--branch"@]);
                    assert(res@.args =~= m.global_args + seq![
                        "status"@,
                        "--porcelain=v1"@,
                        "--branch"@,
                    ]);
                },
                FilterKind::Diff => {
                    assert(str_views(extra@) =~= seq!["diff"@, "--stat"@, "--unified=1"@]);
                    assert(res@.args =~= m.global_args + seq!["diff"@, "--stat"@, "--unified=1"@]
                        + m.sub_args);
                },
                _ => {
                    assert(str_views(extra@) =~= seq![
                        "log"@,
                        "--pretty=format:%h %s (%cr)"@,
                        "-n"@,
                        "20"@,
                    ]);
                    assert(res@.args =~= m.global_args + seq![
                        "log"@,
                        "--pretty=format:%h %s (%cr)"@,
                        "-n"@,
                        "20"@,
                    ] + m.sub_args);
                },
            }
        }
        res
    }

    /// What to do once the first run is done.
    pub fn after_raw(&self, raw: GitOutput) -> (res: RawStep)
        ensures
            match res {
                RawStep::Finished(r) => finish_after_raw(self.invocation@, raw@) == Some(r@),
                RawStep::Probe(cmd, kept) => {
                    &&& finish_after_raw(self.invocation@, raw@) is None
                    &&& probe_command_model(self.invocation@) == Some(cmd@)
                    &&& kept@ == raw@
                },
            },
    {
        let kind = filter_kind(&self.invocation);
        if !raw.success() {
            return RawStep::Finished(passthrough_result(raw));
        }
        match kind {
            FilterKind::Passthrough => RawStep::Finished(passthrough_result(raw)),
            FilterKind::Status => {
                if self.invocation.sub_args.len() > 0 {
                    RawStep::Finished(passthrough_result(raw))
                } else {
                    RawStep::Probe(self.probe_command(&kind), raw)
                }
            },
            FilterKind::Diff => RawStep::Probe(self.probe_command(&kind), raw),
            FilterKind::Log => RawStep::Probe(self.probe_command(&kind), raw),
            FilterKind::Pull => {
                let f = filter_pull(raw.combined_output.as_str());
                RawStep::Finished(filtered_result(raw, f, None))
            },
            FilterKind::Push => {
                let f = filter_push(raw.combined_output.as_str());
                RawStep::Finished(filtered_result(raw, f, None))
            },
            FilterKind::Commit => {
                let f = filter_commit(raw.combined_output.as_str());
                RawStep::Finished(filtered_result(raw, f, None))
            },
            FilterKind::Add => RawStep::Finished(filtered_result(raw, "ok".to_owned(), None)),
        }
    }

    /// The result once the second run is done.
    pub fn after_probe(&self, raw: GitOutput, probe: GitOutput) -> (res: FilterResult)
        ensures
            res@ == finish_after_probe(self.invocation@, raw@, probe@),
    {
        if !probe.success() {
            return passthrough_result(raw);
        }
        match filter_kind(&self.invocation) {
            FilterKind::Status => {
                if !status_input_is_sound(probe.combined_output.as_str()) {
                    return passthrough_result(raw);
                }
                let f = filter_status(probe.combined_output.as_str());
                filtered_result(raw, f, Some(probe.combined_output))
            },
            FilterKind::Diff => {
                let f = filter_diff(probe.combined_output.as_str());
                filtered_result(raw, f, Some(probe.combined_output))
            },
            FilterKind::Log => {
                let f = filter_log(probe.combined_output.as_str());
                filtered_result(raw, f, Some(probe.combined_output))
            },
            _ => passthrough_result(raw),
        }
    }
}

/// What `trimr git` prints to stdout for a filtered output: nothing when it
/// is empty, otherwise the output ending with exactly the line break it has,
/// or one added when it has none.
pub open spec fn stdout_text_spec(filtered: Seq<char>) -> Seq<char> {
    if filtered.len() == 0 || filtered.last() == '\n' {
        filtered
    } else {
        filtered.push('\n')
    }
}

/// The text that `trimr git` prints to stdout for a filtered output.
pub fn stdout_text(filtered: &str) -> (res: String)
    ensures
        res@ == stdout_text_spec(filtered@),
{
    let mut v = chars_of(filtered);
    let n = v.len();
    if n > 0 && v[n - 1] != '\n' {
        v.push('\n');
    }
    string_of(v.as_slice())
}

/// The estimated tokens saved by showing `filtered_bytes` bytes in place of
/// `raw_bytes` (negative when the filtered text is longer).
pub fn tokens_saved(raw_bytes: usize, filtered_bytes: usize) -> (res: i64)
    ensures
        res == tokens_for(raw_bytes as nat) - tokens_for(filtered_bytes as nat),
{
    let raw_t = estimate_tokens(raw_bytes);
    let out_t = estimate_tokens(filtered_bytes);
    assert(raw_t <= 0x4000_0000_0000_0000);
    assert(out_t <= 0x4000_0000_0000_0000);
    raw_t as i64 - out_t as i64
}

// ---------------------------------------------------------------------------
// Laws
// ---------------------------------------------------------------------------

/// Splitting an invocation loses, adds and reorders no word: global
/// options, subcommand and its arguments, read in order, are the words.
pub proof fn law_parse_keeps_words(words: Seq<Seq<char>>)
    ensures
        flatten(parse_words(words)) == words,
    decreases words.len(),
{
    if words.len() == 0 {
        assert(flatten(parse_words(words)) =~= words);
    } else if words[0] == "--"@ {
        assert(flatten(parse_words(words)) =~= words);
    } else if !is_option_word(words[0]) {
        assert(flatten(parse_words(words)) =~= words);
    } else if takes_value(words[0]) {
        if words.len() < 2 {
            assert(flatten(parse_words(words)) =~= words);
        } else {
            let rest = parse_words(words.skip(2));
            law_parse_keeps_words(words.skip(2));
            let g = seq![words[0], words[1]];
            assert(parse_words(words) == with_globals(g, rest));
            assert(flatten(with_globals(g, rest)) =~= g + flatten(rest));
            assert(g + words.skip(2) =~= words);
        }
    } else {
        let rest = parse_words(words.skip(1));
        law_parse_keeps_words(words.skip(1));
        let g = seq![words[0]];
        assert(parse_words(words) == with_globals(g, rest));
        assert(flatten(with_globals(g, rest)) =~= g + flatten(rest));
        assert(g + words.skip(1) =~= words);
    }
}

/// The first run hands git exactly the words the user typed after `git`,
/// in their order.
pub proof fn law_raw_run_forwards_words(sub: Seq<char>, args: Seq<Seq<char>>)
    ensures
        raw_command_model(parse_words(invocation_words(sub, args))).args == invocation_words(
            sub,
            args,
        ),
{
    law_parse_keeps_words(invocation_words(sub, args));
}

/// The result always carries git's exit code from the first run.
pub proof fn law_exit_code_propagates(m: InvocationModel, raw: OutputModel, probe: OutputModel)
    ensures
        run_model(m, raw, probe).exit_code == raw.exit_code,
{
}

/// When git fails, its output is shown as it is: never a summary, never a
/// made-up `ok`.
pub proof fn law_failed_run_passes_through(
    m: InvocationModel,
    raw: OutputModel,
    probe: OutputModel,
)
    requires
        raw.exit_code != 0,
    ensures
        run_model(m, raw, probe) == passthrough_model(raw),
{
}

/// When the run that produces the filter's input fails, git's own output of
/// the first run is shown.
pub proof fn law_failed_probe_passes_through(
    m: InvocationModel,
    raw: OutputModel,
    probe: OutputModel,
)
    requires
        finish_after_raw(m, raw) is None,
        probe.exit_code != 0,
    ensures
        run_model(m, raw, probe) == passthrough_model(raw),
{
}

/// A status text with a header that cannot be read with confidence (a `]`
/// before the `[` of the sync status) is not summarised: git's own output of
/// the first run is shown.
pub proof fn law_unreadable_status_passes_through(
    m: InvocationModel,
    raw: OutputModel,
    probe: OutputModel,
)
    requires
        kind_of(m) is Status,
        !status_input_sound(probe.text),
    ensures
        run_model(m, raw, probe) == passthrough_model(raw),
{
}

/// Output other than git's own is shown only after every run succeeded.
pub proof fn law_summary_only_after_success(
    m: InvocationModel,
    raw: OutputModel,
    probe: OutputModel,
)
    requires
        run_model(m, raw, probe) != passthrough_model(raw),
    ensures
        raw.exit_code == 0,
        finish_after_raw(m, raw) is None ==> probe.exit_code == 0,
{
}

/// Help, version and path flags before the subcommand are forwarded to git
/// and its output shown unchanged.
pub proof fn law_short_circuit_passes_through(
    m: InvocationModel,
    raw: OutputModel,
    probe: OutputModel,
)
    requires
        short_circuits(m.global_args),
    ensures
        run_model(m, raw, probe) == passthrough_model(raw),
{
}

/// Without a subcommand, git's output is shown unchanged.
pub proof fn law_no_subcommand_passes_through(
    m: InvocationModel,
    raw: OutputModel,
    probe: OutputModel,
)
    requires
        m.subcommand is None,
    ensures
        run_model(m, raw, probe) == passthrough_model(raw),
{
}

/// `status` with arguments of the user's (`--porcelain=v2`, `-z`, ...) is
/// shown as git prints it; the compact summary is only for plain `status`.
pub proof fn law_status_with_args_passes_through(
    m: InvocationModel,
    raw: OutputModel,
    probe: OutputModel,
)
    requires
        m.subcommand == Some("status"@),
        m.sub_args.len() > 0,
    ensures
        run_model(m, raw, probe) == passthrough_model(raw),
{
}

/// Subcommands without a filter (`checkout`, `branch`, `stash`, ...) are
/// shown as git prints them.
pub proof fn law_other_subcommands_pass_through(
    m: InvocationModel,
    raw: OutputModel,
    probe: OutputModel,
)
    requires
        m.subcommand matches Some(s) && s != "status"@ && s != "diff"@ && s != "log"@ && s
            != "pull"@ && s != "push"@ && s != "commit"@ && s != "add"@,
    ensures
        run_model(m, raw, probe) == passthrough_model(raw),
{
}

/// Showing git's output unchanged saves no tokens.
pub proof fn law_passthrough_saves_nothing(raw: OutputModel)
    ensures
        tokens_for(passthrough_model(raw).raw_bytes as nat) - tokens_for(
            passthrough_model(raw).filtered_bytes as nat,
        ) == 0,
{
}

/// A successful `add` shows `ok`.
pub proof fn law_successful_add_shows_ok(m: InvocationModel, raw: OutputModel, probe: OutputModel)
    requires
        m.subcommand == Some("add"@),
        !short_circuits(m.global_args),
        raw.exit_code == 0,
    ensures
        run_model(m, raw, probe).filtered_output == "ok"@,
{
    reveal_strlit("add");
    reveal_strlit("status");
    reveal_strlit("diff");
    reveal_strlit("log");
    reveal_strlit("pull");
    reveal_strlit("push");
    reveal_strlit("commit");
    assert("add"@ != "status"@ && "add"@ != "diff"@ && "add"@ != "log"@ && "add"@ != "pull"@
        && "add"@ != "push"@ && "add"@ != "commit"@) by {
        assert("add"@.len() != "status"@.len());
        assert("add"@[0] != "diff"@[0]);
        assert("add"@[0] != "log"@[0]);
        assert("add"@.len() != "pull"@.len());
        assert("add"@.len() != "push"@.len());
        assert("add"@.len() != "commit"@.len());
    }
}

/// Global options as git reads them, walked from the front: each is an
/// option word; one that takes a value is followed by it (unless the words
/// end there); `--` stands only last.
pub open spec fn globals_well_formed(g: Seq<Seq<char>>) -> bool
    decreases g.len(),
{
    if g.len() == 0 {
        true
    } else {
        &&& is_option_word(g[0])
        &&& (g[0] == "--"@ ==> g.len() == 1)
        &&& if takes_value(g[0]) {
            g.len() < 2 || globals_well_formed(g.skip(2))
        } else {
            globals_well_formed(g.skip(1))
        }
    }
}

/// The shape of a split invocation: the global options are well formed;
/// without a subcommand there are no subcommand arguments; a subcommand is a
/// word that is not an option, unless `--` ended the options before it.
pub proof fn law_parse_shape(words: Seq<Seq<char>>)
    ensures
        globals_well_formed(parse_words(words).global_args),
        parse_words(words).subcommand is None ==> parse_words(words).sub_args.len() == 0,
        parse_words(words).subcommand matches Some(s) ==> !is_option_word(s) || (parse_words(
            words,
        ).global_args.len() > 0 && parse_words(words).global_args.last() == "--"@),
    decreases words.len(),
{
    let m = parse_words(words);
    if words.len() == 0 {
    } else if words[0] == "--"@ {
        reveal_strlit("--");
        reveal_strlit("-");
        assert(m.global_args =~= seq![words[0]]);
        assert(words[0].len() == 2 && words[0][0] == '-');
        assert(words[0] != "-"@);
        assert(is_option_word(words[0]));
        assert(m.global_args.skip(1) =~= Seq::<Seq<char>>::empty());
        assert(globals_well_formed(m.global_args.skip(1)));
    } else if !is_option_word(words[0]) {
    } else if takes_value(words[0]) {
        if words.len() < 2 {
            assert(m.global_args =~= words);
        } else {
            let rest = parse_words(words.skip(2));
            law_parse_shape(words.skip(2));
            let g = seq![words[0], words[1]] + rest.global_args;
            assert(m.global_args == g);
            assert(g.skip(2) =~= rest.global_args);
            if rest.global_args.len() > 0 {
                assert(g.last() == rest.global_args.last());
            }
        }
    } else {
        let rest = parse_words(words.skip(1));
        law_parse_shape(words.skip(1));
        let g = seq![words[0]] + rest.global_args;
        assert(m.global_args == g);
        assert(g.skip(1) =~= rest.global_args);
        if rest.global_args.len() > 0 {
            assert(g.last() == rest.global_args.last());
        }
    }
}

/// An option word other than `--` and the nine options that take a value
/// (`-C`, `-c`, `--exec-path`, `--git-dir`, `--work-tree`, `--namespace`,
/// `--super-prefix`, `--config-env`, `--attr-source`) stands alone: the next
/// word, when it is not an option, is the subcommand (`--no-pager log` runs
/// `log`).
pub proof fn law_plain_option_then_subcommand(
    o: Seq<char>,
    sub: Seq<char>,
    rest: Seq<Seq<char>>,
)
    requires
        o.len() > 0,
        o[0] == '-',
        o != "-"@,
        o != "--"@,
        o != "-C"@,
        o != "-c"@,
        o != "--exec-path"@,
        o != "--git-dir"@,
        o != "--work-tree"@,
        o != "--namespace"@,
        o != "--super-prefix"@,
        o != "--config-env"@,
        o != "--attr-source"@,
        sub.len() == 0 || sub[0] != '-',
    ensures
        parse_words(seq![o, sub] + rest).global_args == seq![o],
        parse_words(seq![o, sub] + rest).subcommand == Some(sub),
        parse_words(seq![o, sub] + rest).sub_args == rest,
{
    let w = seq![o, sub] + rest;
    assert(w[0] == o);
    assert(w.skip(1) =~= seq![sub] + rest);
    let w1 = w.skip(1);
    assert(w1[0] == sub);
    reveal_strlit("-");
    reveal_strlit("--");
    assert(!is_option_word(sub));
    if sub.len() > 0 {
        assert(sub[0] != "--"@[0]);
    }
    assert(sub != "--"@);
    assert(w1.skip(1) =~= rest);
    assert(parse_words(w1) == tail_at(w1, 0));
    assert(parse_words(w) == with_globals(seq![o], parse_words(w1)));
    assert(parse_words(w).global_args =~= seq![o]);
}

/// Each of the nine options that take a value takes the next word with it,
/// whatever that word is; the word after them, when not an option, is the
/// subcommand.
pub proof fn law_value_option_then_subcommand(
    o: Seq<char>,
    v: Seq<char>,
    sub: Seq<char>,
    rest: Seq<Seq<char>>,
)
    requires
        o == "-C"@ || o == "-c"@ || o == "--exec-path"@ || o == "--git-dir"@ || o == "--work-tree"@
            || o == "--namespace"@ || o == "--super-prefix"@ || o == "--config-env"@ || o
            == "--attr-source"@,
        sub.len() == 0 || sub[0] != '-',
    ensures
        parse_words(seq![o, v, sub] + rest).global_args == seq![o, v],
        parse_words(seq![o, v, sub] + rest).subcommand == Some(sub),
        parse_words(seq![o, v, sub] + rest).sub_args == rest,
{
    reveal_strlit("-");
    reveal_strlit("--");
    reveal_strlit("-C");
    reveal_strlit("-c");
    reveal_strlit("--exec-path");
    reveal_strlit("--git-dir");
    reveal_strlit("--work-tree");
    reveal_strlit("--namespace");
    reveal_strlit("--super-prefix");
    reveal_strlit("--config-env");
    reveal_strlit("--attr-source");
    let w = seq![o, v, sub] + rest;
    assert(w[0] == o);
    assert(w[1] == v);
    assert(o[0] == '-');
    assert(o != "-"@);
    assert(o.len() != 2 || o[1] != '-');
    assert(o != "--"@);
    assert(is_option_word(o));
    assert(takes_value(o));
    let w2 = w.skip(2);
    assert(w2 =~= seq![sub] + rest);
    assert(w2[0] == sub);
    assert(!is_option_word(sub));
    assert(w2.skip(1) =~= rest);
    assert(parse_words(w2).global_args =~= Seq::<Seq<char>>::empty());
    assert(parse_words(w).global_args =~= seq![o, v]);
}

/// The second run of `status`, `diff` and `log` is the user's own words with
/// the filter's options put right after the subcommand: every word the user
/// gave, before and after the subcommand, is passed on. A plain `diff` or
/// `log` (no help or version flag before it) always gets a second run.
pub proof fn law_probe_forwards_user_words(sub: Seq<char>, args: Seq<Seq<char>>)
    ensures
        ({
            let w = invocation_words(sub, args);
            let m = parse_words(w);
            let n = m.global_args.len() as int + 1;
            &&& (m.subcommand == Some("diff"@) && !short_circuits(m.global_args)) ==> probe_command_model(m)
                == Some(
                CommandModel {
                    args: w.take(n) + seq!["--stat"@, "--unified=1"@] + w.skip(n),
                    label: "diff"@,
                },
            )
            &&& (m.subcommand == Some("log"@) && !short_circuits(m.global_args)) ==> probe_command_model(m)
                == Some(
                CommandModel {
                    args: w.take(n) + seq!["--pretty=format:%h %s (%cr)"@, "-n"@, "20"@] + w.skip(n),
                    label: "log"@,
                },
            )
            &&& (m.subcommand == Some("status"@) && probe_command_model(m) is Some) ==> probe_command_model(m)
                == Some(
                CommandModel { args: w + seq!["--porcelain=v1"@, "--branch"@], label: "status"@ },
            )
        }),
{
    let w = invocation_words(sub, args);
    let m = parse_words(w);
    law_parse_keeps_words(w);
    let n = m.global_args.len() as int + 1;
    reveal_strlit("status");
    reveal_strlit("diff");
    reveal_strlit("log");
    assert("diff"@ != "status"@) by {
        assert("diff"@.len() != "status"@.len());
    }
    assert("log"@ != "status"@) by {
        assert("log"@.len() != "status"@.len());
    }
    assert("log"@ != "diff"@) by {
        assert("log"@.len() != "diff"@.len());
    }
    if let Some(s) = m.subcommand {
        assert(w == m.global_args + seq![s] + m.sub_args);
        assert(w.take(n) =~= m.global_args + seq![s]);
        assert(w.skip(n) =~= m.sub_args);
        if s == "diff"@ && !short_circuits(m.global_args) {
            assert(kind_of(m) is Diff);
            assert(m.global_args + seq!["diff"@, "--stat"@, "--unified=1"@] + m.sub_args =~= w.take(n)
                + seq!["--stat"@, "--unified=1"@] + w.skip(n));
        }
        if s == "log"@ && !short_circuits(m.global_args) {
            assert(kind_of(m) is Log);
            assert(m.global_args + seq!["log"@, "--pretty=format:%h %s (%cr)"@, "-n"@, "20"@]
                + m.sub_args =~= w.take(n) + seq!["--pretty=format:%h %s (%cr)"@, "-n"@, "20"@]
                + w.skip(n));
        }
        if s == "status"@ && probe_command_model(m) is Some {
            assert(kind_of(m) is Status);
            assert(m.sub_args.len() == 0);
            assert(w =~= m.global_args + seq![s]);
            assert(m.global_args + seq!["status"@, "--porcelain=v1"@, "--branch"@] =~= w + seq![
                "--porcelain=v1"@,
                "--branch"@,
            ]);
        }
    }
}

/// The flags after which git runs no subcommand are exactly `-h`, `--help`,
/// `-v`, `--version`, `--html-path`, `--man-path` and `--info-path`.
pub proof fn law_short_circuit_flags(g: Seq<Seq<char>>)
    ensures
        short_circuits(g) <==> exists|i: int|
            0 <= i < g.len() && (#[trigger] g[i] == "-h"@ || g[i] == "--help"@ || g[i] == "-v"@
                || g[i] == "--version"@ || g[i] == "--html-path"@ || g[i] == "--man-path"@ || g[i]
                == "--info-path"@),
{
}

/// After a successful first run, `pull`, `push` and `commit` show the
/// summary of their own filter over git's output, and keep no intermediate
/// text.
pub proof fn law_summaries_of_pull_push_commit(
    m: InvocationModel,
    raw: OutputModel,
    probe: OutputModel,
)
    requires
        !short_circuits(m.global_args),
        raw.exit_code == 0,
    ensures
        m.subcommand == Some("pull"@) ==> run_model(m, raw, probe) == filtered_model(
            raw,
            filter_pull_spec(raw.text),
            None,
        ),
        m.subcommand == Some("push"@) ==> run_model(m, raw, probe) == filtered_model(
            raw,
            filter_push_spec(raw.text),
            None,
        ),
        m.subcommand == Some("commit"@) ==> run_model(m, raw, probe) == filtered_model(
            raw,
            filter_commit_spec(raw.text),
            None,
        ),
{
    reveal_strlit("status");
    reveal_strlit("diff");
    reveal_strlit("log");
    reveal_strlit("pull");
    reveal_strlit("push");
    reveal_strlit("commit");
    assert("pull"@ != "status"@ && "pull"@ != "diff"@ && "pull"@ != "log"@) by {
        assert("pull"@.len() != "status"@.len());
        assert("pull"@[0] != "diff"@[0]);
        assert("pull"@.len() != "log"@.len());
    }
    assert("push"@ != "status"@ && "push"@ != "diff"@ && "push"@ != "log"@ && "push"@
        != "pull"@) by {
        assert("push"@.len() != "status"@.len());
        assert("push"@[0] != "diff"@[0]);
        assert("push"@.len() != "log"@.len());
        assert("push"@[2] != "pull"@[2]);
    }
    assert("commit"@ != "status"@ && "commit"@ != "diff"@ && "commit"@ != "log"@ && "commit"@
        != "pull"@ && "commit"@ != "push"@) by {
        assert("commit"@[0] != "status"@[0]);
        assert("commit"@.len() != "diff"@.len());
        assert("commit"@.len() != "log"@.len());
        assert("commit"@.len() != "pull"@.len());
        assert("commit"@.len() != "push"@.len());
    }
}

} // verus!
