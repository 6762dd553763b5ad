use trimr::commands::format_git_cmd;
use trimr::commands::git::{
    filtered_result, global_flags_short_circuit, parse_git_invocation, passthrough_result,
    stdout_text, takes_global_option_value, tokens_saved, FilterResult, GitOutput, GitRun, RawStep,
};

#[test]
fn parse_git_invocation_with_global_options() {
    let args = vec![
        "repo".to_string(),
        "-c".to_string(),
        "core.pager=cat".to_string(),
        "status".to_string(),
        "--short".to_string(),
    ];
    let parsed = parse_git_invocation("-C", &args);
    assert_eq!(
        parsed.global_args,
        vec!["-C", "repo", "-c", "core.pager=cat"]
    );
    assert_eq!(parsed.subcommand.as_deref(), Some("status"));
    assert_eq!(parsed.sub_args, vec!["--short"]);
}

#[test]
fn parse_git_invocation_without_subcommand() {
    let parsed = parse_git_invocation("--version", &[]);
    assert_eq!(parsed.global_args, vec!["--version"]);
    assert_eq!(parsed.subcommand, None);
    assert!(parsed.sub_args.is_empty());
}

#[test]
fn short_circuit_flags_detected() {
    assert!(global_flags_short_circuit(&["--version".to_string()]));
    assert!(global_flags_short_circuit(&["--html-path".to_string()]));
    assert!(!global_flags_short_circuit(&["-C".to_string(), "repo".to_string()]));
}

// ----- further cases -----

fn words(v: &[&str]) -> Vec<String> {
    v.iter().map(|s| s.to_string()).collect()
}

fn out(text: &str, code: i32) -> GitOutput {
    GitOutput { combined_output: text.to_string(), exit_code: code }
}

#[test]
fn parse_double_dash_ends_options() {
    let parsed = parse_git_invocation("--", &words(&["log", "-n", "1"]));
    assert_eq!(parsed.global_args, vec!["--"]);
    assert_eq!(parsed.subcommand.as_deref(), Some("log"));
    assert_eq!(parsed.sub_args, vec!["-n", "1"]);
    let parsed = parse_git_invocation("--", &[]);
    assert_eq!(parsed.global_args, vec!["--"]);
    assert_eq!(parsed.subcommand, None);
}

#[test]
fn parse_missing_option_value() {
    let parsed = parse_git_invocation("-C", &[]);
    assert_eq!(parsed.global_args, vec!["-C"]);
    assert_eq!(parsed.subcommand, None);
    assert!(parsed.sub_args.is_empty());
}

#[test]
fn parse_single_dash_is_a_subcommand() {
    let parsed = parse_git_invocation("-", &words(&["x"]));
    assert!(parsed.global_args.is_empty());
    assert_eq!(parsed.subcommand.as_deref(), Some("-"));
    assert_eq!(parsed.sub_args, vec!["x"]);
    let parsed = parse_git_invocation("--bare", &words(&["status", "-s"]));
    assert_eq!(parsed.global_args, vec!["--bare"]);
    assert_eq!(parsed.subcommand.as_deref(), Some("status"));
}

#[test]
fn option_values() {
    for o in ["-C", "-c", "--exec-path", "--git-dir", "--work-tree", "--namespace", "--super-prefix", "--config-env", "--attr-source"] {
        assert!(takes_global_option_value(o));
    }
    assert!(!takes_global_option_value("--bare"));
    assert!(!takes_global_option_value("-C2"));
}

#[test]
fn format_git_cmd_joins_with_spaces() {
    assert_eq!(format_git_cmd("status", &[]), "status");
    assert_eq!(format_git_cmd("-C", &words(&["repo", "status"])), "-C repo status");
}

#[test]
fn from_streams_concatenates() {
    let o = GitOutput::from_streams("out\n".to_string(), "err\n".to_string(), Some(3));
    assert_eq!(o.combined_output, "out\nerr\n");
    assert_eq!(o.exit_code, 3);
    assert!(!o.success());
    let o = GitOutput::from_streams(String::new(), String::new(), None);
    assert_eq!(o.exit_code, 1);
    assert!(GitOutput::from_streams(String::new(), String::new(), Some(0)).success());
}

#[test]
fn results_count_bytes() {
    let r = passthrough_result(out("héllo", 0));
    assert_eq!(r.raw_bytes, 6);
    assert_eq!(r.filtered_bytes, 6);
    assert_eq!(r.filtered_output, "héllo");
    assert!(r.compact_input.is_none());
    let r = filtered_result(out("abcdefgh", 2), "ok".to_string(), Some("x".to_string()));
    assert_eq!((r.raw_bytes, r.filtered_bytes, r.exit_code), (8, 2, 2));
    assert_eq!(r.compact_input.as_deref(), Some("x"));
}

#[test]
fn tokens_saved_counts() {
    assert_eq!(tokens_saved(100, 8), 23);
    assert_eq!(tokens_saved(5, 5), 0);
    assert_eq!(tokens_saved(0, 9), -3);
}

fn finished(step: RawStep) -> FilterResult {
    match step {
        RawStep::Finished(r) => r,
        RawStep::Probe(..) => panic!("expected a finished result"),
    }
}

#[test]
fn run_add_success_and_failure() {
    let run = GitRun::new("add", &words(&["new.txt"]));
    let cmd = run.raw_command();
    assert_eq!(cmd.args, vec!["add", "new.txt"]);
    assert_eq!(cmd.label, "add");
    let r = finished(run.after_raw(out("", 0)));
    assert_eq!(r.filtered_output, "ok");
    let err = "fatal: pathspec 'x' did not match any files\n";
    let r = finished(run.after_raw(out(err, 128)));
    assert_eq!(r.filtered_output, err);
    assert_eq!(r.exit_code, 128);
}

#[test]
fn run_status_probes_porcelain() {
    let run = GitRun::new("-C", &words(&["repo", "status"]));
    assert_eq!(run.raw_command().args, vec!["-C", "repo", "status"]);
    match run.after_raw(out("On branch main\n", 0)) {
        RawStep::Probe(cmd, raw) => {
            assert_eq!(cmd.args, vec!["-C", "repo", "status", "--porcelain=v1", "--branch"]);
            assert_eq!(cmd.label, "status");
            let probe = out("## main\n", 0);
            let r = run.after_probe(raw, probe);
            assert_eq!(r.filtered_output, "Branch: main\nnothing to commit, working tree clean");
            assert_eq!(r.raw_output, "On branch main\n");
            assert_eq!(r.compact_input.as_deref(), Some("## main\n"));
        }
        RawStep::Finished(_) => panic!("expected a probe"),
    }
}

#[test]
fn run_status_with_args_passes_through() {
    let run = GitRun::new("status", &words(&["--porcelain=v2"]));
    let r = finished(run.after_raw(out("1 .M N... README.md\n", 0)));
    assert_eq!(r.filtered_output, "1 .M N... README.md\n");
}

#[test]
fn run_failed_probe_passes_through() {
    let run = GitRun::new("diff", &[]);
    match run.after_raw(out("diff --git a b\n", 0)) {
        RawStep::Probe(cmd, raw) => {
            assert_eq!(cmd.args, vec!["diff", "--stat", "--unified=1"]);
            let r = run.after_probe(raw, out("boom\n", 1));
            assert_eq!(r.filtered_output, "diff --git a b\n");
            assert_eq!(r.exit_code, 0);
        }
        RawStep::Finished(_) => panic!("expected a probe"),
    }
}

#[test]
fn run_log_probe_words() {
    let run = GitRun::new("log", &words(&["--oneline"]));
    match run.after_raw(out("commit abc\n", 0)) {
        RawStep::Probe(cmd, _) => {
            assert_eq!(
                cmd.args,
                vec!["log", "--pretty=format:%h %s (%cr)", "-n", "20", "--oneline"]
            );
        }
        RawStep::Finished(_) => panic!("expected a probe"),
    }
}

#[test]
fn run_short_circuit_and_no_subcommand() {
    let run = GitRun::new("--version", &words(&["commit"]));
    let r = finished(run.after_raw(out("git version 2.40.0\n", 0)));
    assert_eq!(r.filtered_output, "git version 2.40.0\n");
    let run = GitRun::new("--help", &[]);
    assert_eq!(run.raw_command().label, "<global>");
    let r = finished(run.after_raw(out("usage: git\n", 0)));
    assert_eq!(r.filtered_output, "usage: git\n");
}

#[test]
fn run_commit_push_pull_summaries() {
    let r = finished(GitRun::new("commit", &words(&["-m", "x"])).after_raw(out("[main abc1234] x\n", 0)));
    assert_eq!(r.filtered_output, "ok main abc1234");
    let r = finished(GitRun::new("push", &[]).after_raw(out("Everything up-to-date\n", 0)));
    assert_eq!(r.filtered_output, "Everything up-to-date");
    let r = finished(GitRun::new("pull", &[]).after_raw(out("Already up to date.\n", 0)));
    assert_eq!(r.filtered_output, "Already up to date.");
    let r = finished(GitRun::new("checkout", &words(&["-b", "x"])).after_raw(out("Switched\n", 0)));
    assert_eq!(r.filtered_output, "Switched\n");
}

#[test]
fn run_status_unreadable_probe_passes_through() {
    let run = GitRun::new("status", &[]);
    match run.after_raw(out("On branch a]b\n", 0)) {
        RawStep::Probe(_, raw) => {
            let r = run.after_probe(raw, out("## a]b...o/a]b [ahead 1]\n", 0));
            assert_eq!(r.filtered_output, "On branch a]b\n");
            assert_eq!(r.exit_code, 0);
            assert!(r.compact_input.is_none());
        }
        RawStep::Finished(_) => panic!("expected a probe"),
    }
}

#[test]
fn stdout_text_adds_missing_line_break() {
    assert_eq!(stdout_text(""), "");
    assert_eq!(stdout_text("ok"), "ok\n");
    assert_eq!(stdout_text("a\n"), "a\n");
}
