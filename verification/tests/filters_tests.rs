use trimr::filters::estimate_tokens;
use trimr::filters::git::{
    filter_commit, filter_diff, filter_log, filter_pull, filter_push, filter_status,
    status_input_is_sound,
};
use trimr::text::{chars_of, decimal_chars, is_whitespace, split_lines, trim};

#[test]
fn filter_status_clean() {
    let input = "## main...origin/main\n";
    let out = filter_status(input);
    assert!(out.contains("Branch: main"), "got: {}", out);
    assert!(out.contains("nothing to commit"), "got: {}", out);
}

#[test]
fn filter_status_modified_and_untracked() {
    let input = "## main...origin/main\n M src/main.rs\n M src/lib.rs\n?? foo.txt\n";
    let out = filter_status(input);
    assert!(out.contains("Branch: main"), "got: {}", out);
    assert!(out.contains("2 modified"), "got: {}", out);
    assert!(out.contains("1 untracked"), "got: {}", out);
}

#[test]
fn filter_status_ahead() {
    let input = "## main...origin/main [ahead 1]\n";
    let out = filter_status(input);
    assert!(out.contains("[ahead 1]"), "got: {}", out);
}

#[test]
fn filter_status_no_tracking() {
    let input = "## main\n M src/main.rs\n";
    let out = filter_status(input);
    assert!(out.contains("Branch: main"), "got: {}", out);
    assert!(out.contains("1 modified"), "got: {}", out);
}

#[test]
fn filter_status_conflict_not_clean() {
    let input = "## main...origin/main\nUU src/main.rs\n";
    let out = filter_status(input);
    assert!(out.contains("1 conflicted"), "got: {}", out);
    assert!(!out.contains("working tree clean"), "got: {}", out);
}

#[test]
fn filter_status_type_changed_not_clean() {
    let input = "## main...origin/main\n T src/main.rs\n";
    let out = filter_status(input);
    assert!(out.contains("1 type-changed"), "got: {}", out);
    assert!(!out.contains("working tree clean"), "got: {}", out);
}

#[test]
fn filter_diff_truncates() {
    let many_lines: String = (0..150).map(|i| format!("line {}\n", i)).collect();
    let out = filter_diff(&many_lines);
    assert!(out.contains("truncated"), "got: {}", out);
    let line_count = out.lines().count();
    // 100 content lines + 1 truncation notice
    assert_eq!(line_count, 101, "got {} lines", line_count);
}

#[test]
fn filter_diff_no_truncate_when_short() {
    let input = "diff --git a/foo.rs b/foo.rs\n+added line\n";
    let out = filter_diff(input);
    assert_eq!(out, input);
}

#[test]
fn filter_pull_already_up_to_date() {
    let input = "From github.com:foo/bar\nAlready up to date.\n";
    assert_eq!(filter_pull(input), "Already up to date.");
}

#[test]
fn filter_pull_files_changed() {
    let input = "remote: Counting objects...\n2 files changed, 10 insertions(+)\n";
    assert!(filter_pull(input).contains("files changed"));
}

#[test]
fn filter_commit_extracts_hash() {
    let input = "[main abc1234] Add feature\n 1 file changed\n";
    let out = filter_commit(input);
    assert_eq!(out, "ok main abc1234");
}

#[test]
fn filter_push_everything_up_to_date() {
    let input = "Everything up-to-date\n";
    let out = filter_push(input);
    assert_eq!(out, "Everything up-to-date");
}

#[test]
fn filter_push_new_branch() {
    let input = " * [new branch]      main -> origin/main\n";
    let out = filter_push(input);
    assert!(out.contains("->"), "got: {}", out);
    assert!(out.starts_with("ok "), "got: {}", out);
}

#[test]
fn filter_push_branch_tracking_line() {
    let input = "Branch 'main' set up to track remote branch 'main' from 'origin'.\n";
    let out = filter_push(input);
    assert!(out.starts_with("Branch"), "got: {}", out);
}

#[test]
fn filter_push_fallback_ok() {
    let input = "some unrecognized output\n";
    let out = filter_push(input);
    assert_eq!(out, "ok");
}

#[test]
fn estimate_tokens_rounds_up() {
    assert_eq!(estimate_tokens(0), 0);
    assert_eq!(estimate_tokens(1), 1);
    assert_eq!(estimate_tokens(4), 1);
    assert_eq!(estimate_tokens(5), 2);
    assert_eq!(estimate_tokens(100), 25);
}

// ----- further cases -----

#[test]
fn filter_status_exact_summary() {
    let input = "## main...origin/main [ahead 1]\n M src/main.rs\n?? foo.txt\n";
    assert_eq!(
        filter_status(input),
        "Branch: main [ahead 1]\n1 modified, 1 untracked"
    );
}

#[test]
fn filter_status_all_kinds_in_order() {
    let input = "A  a\nM  b\nR  c -> d\nC  e -> f\nD  g\nT  h\nAA i\n?? j\n!! k\n";
    assert_eq!(
        filter_status(input),
        "1 added, 1 modified, 1 renamed, 1 copied, 1 deleted, 1 type-changed, 1 conflicted, 1 untracked, 1 ignored"
    );
}

#[test]
fn filter_status_both_letters_count_once_per_kind() {
    // "MM" is one modification; "RM" is a rename and a modification.
    let input = "MM a\nRM b -> c\nDD d\n";
    assert_eq!(filter_status(input), "2 modified, 1 renamed, 1 conflicted");
}

#[test]
fn filter_status_without_header_or_entries() {
    assert_eq!(filter_status(""), "nothing to commit, working tree clean");
    assert_eq!(filter_status("x\n"), "nothing to commit, working tree clean");
}

#[test]
fn filter_status_last_header_wins_and_detached_head() {
    assert_eq!(
        filter_status("## HEAD (no branch)\n"),
        "Branch: HEAD (no branch)\nnothing to commit, working tree clean"
    );
    assert_eq!(
        filter_status("## a\n## b...origin/b [behind 2]\n"),
        "Branch: b [behind 2]\nnothing to commit, working tree clean"
    );
}

#[test]
fn filter_status_unclosed_bracket_runs_to_end() {
    assert_eq!(
        filter_status("## main...origin/main [ahead 1\n"),
        "Branch: main [ahead 1\nnothing to commit, working tree clean"
    );
}

#[test]
fn filter_status_single_non_ascii_char_is_an_entry() {
    // One two-byte character: the second letter is taken as a space.
    assert_eq!(filter_status("é\n"), "nothing to commit, working tree clean");
    assert_eq!(filter_status("M\n"), "nothing to commit, working tree clean");
    assert_eq!(filter_status("Mé\n"), "1 modified");
}

#[test]
fn filter_status_reversed_brackets_keep_branch_only() {
    assert_eq!(
        filter_status("## a]b...origin/a]b [ahead 1]\n M x\n"),
        "Branch: a]b\n1 modified"
    );
}

#[test]
fn filter_pull_keeps_final_summary_line() {
    let input = "Updating a1..b2\nFast-forward\n file changed.txt | 2 +-\n 1 file changed, 1 insertion(+), 1 deletion(-)\n";
    assert_eq!(filter_pull(input), "1 file changed, 1 insertion(+), 1 deletion(-)");
    assert_eq!(
        filter_pull(" 2 files changed, 3 insertions(+)\n 10 files changed\nbye\n"),
        "10 files changed"
    );
    assert_eq!(filter_pull("files changed: none\n"), "files changed: none");
}

#[test]
fn status_input_soundness() {
    assert!(status_input_is_sound("## main...origin/main [ahead 1]\n"));
    assert!(status_input_is_sound("## a]b\n"));
    assert!(!status_input_is_sound("## a]b...origin/a]b [ahead 1]\n"));
}

#[test]
fn filter_diff_exact_notice() {
    let many_lines: String = (0..150).map(|i| format!("line {}\n", i)).collect();
    let out = filter_diff(&many_lines);
    assert!(out.starts_with("line 0\nline 1\n"));
    assert!(out.ends_with("line 99\n... [50 lines truncated]"));
}

#[test]
fn filter_diff_exactly_100_lines_kept() {
    let lines: String = (0..100).map(|i| format!("l{}\r\n", i)).collect();
    assert_eq!(filter_diff(&lines), lines);
}

#[test]
fn filter_log_is_identity() {
    let input = "abc1234 init (2 hours ago)\n";
    assert_eq!(filter_log(input), input);
    assert_eq!(filter_log(""), "");
}

#[test]
fn filter_pull_fallbacks() {
    assert_eq!(filter_pull("Updating a..b\n  Fast-forward  \n\n  \n"), "Fast-forward");
    assert_eq!(filter_pull(""), "ok");
    assert_eq!(filter_pull("  \n"), "ok");
    assert_eq!(filter_pull(" 1 file changed, 1 insertion(+)\n"), "1 file changed, 1 insertion(+)");
}

#[test]
fn filter_commit_fallback_and_trim() {
    assert_eq!(filter_commit("nothing to commit\n"), "ok");
    assert_eq!(filter_commit("  [dev 1234567] msg\n"), "ok dev 1234567");
    assert_eq!(filter_commit("[unclosed\n"), "ok");
}

#[test]
fn filter_push_first_match_wins() {
    assert_eq!(filter_push("To origin\n   abc..def  main -> main\n"), "ok abc..def  main -> main");
}

#[test]
fn whitespace_matches_std() {
    for u in 0u32..0x11_0000 {
        if let Some(c) = char::from_u32(u) {
            assert_eq!(is_whitespace(c), c.is_whitespace(), "char {:#x}", u);
        }
    }
}

#[test]
fn lines_match_std() {
    let samples = [
        "", "a", "a\n", "a\n\n", "\n", "a\r\nb", "a\rb\r", "a\r\r\n", "\r\n\r\n", "x\ny\nz",
        "é\n∂\r\n",
    ];
    for s in samples {
        let ours: Vec<String> = split_lines(&chars_of(s)).iter().map(|l| l.iter().collect()).collect();
        let std: Vec<String> = s.lines().map(|l| l.to_string()).collect();
        assert_eq!(ours, std, "input {:?}", s);
    }
}

#[test]
fn trim_matches_std() {
    for s in ["", "  ", " a ", "\u{3000}b\u{2028}", "a b", "\t\na\r\n"] {
        let ours: String = trim(&chars_of(s)).iter().collect();
        assert_eq!(ours, s.trim(), "input {:?}", s);
    }
}

#[test]
fn decimal_matches_format() {
    for n in [0u64, 7, 10, 99, 100, 12345, u64::MAX] {
        let ours: String = decimal_chars(n).iter().collect();
        assert_eq!(ours, format!("{}", n));
    }
}
