use fathers::gitfather::{contains_wrapper, context, hook_action, is_recognized_test, parse_check};
use fathers::hook::HookAction;
use fathers::ledger::model::{Blueprint, CheckKind, LedgerError, Session};
use fathers::table::Table;

fn args(xs: &[&str]) -> Vec<String> {
    xs.iter().map(|x| x.to_string()).collect()
}

fn blueprint() -> Blueprint {
    Blueprint {
        objective: "build the thing".to_string(),
        components: args(&["state", "cli"]),
        layers: args(&["scaffold", "behavior"]),
        next: "wire all interfaces".to_string(),
        dependencies: Table::new(),
    }
}

#[test]
fn recognizes_real_tests_not_search() {
    assert!(is_recognized_test("cd x && cargo test"));
    assert!(is_recognized_test("npx vitest run"));
    assert!(!is_recognized_test("rg 'cargo test' README.md"));
}

#[test]
fn gitfather_recognizes_runner_words() {
    assert!(is_recognized_test("pytest -q"));
    assert!(is_recognized_test("npm test"));
    assert!(!is_recognized_test("cargo build"));
    assert!(!is_recognized_test(""));
}

#[test]
fn gitfather_wrapper_is_a_whole_piece() {
    assert!(contains_wrapper("the-gitfather check whole all -- cargo test"));
    assert!(contains_wrapper("x;the-gitfather check"));
    assert!(contains_wrapper("/bin/the-gitfather check"));
    assert!(!contains_wrapper("the-gitfather-old check"));
}

#[test]
fn gitfather_parse_check_reads_kind_label_and_command() {
    let (c, h) = parse_check(&args(&["whole", "all", "--", "cargo", "test"])).unwrap();
    assert_eq!(c.kind, CheckKind::Whole);
    assert_eq!(c.label, "all");
    assert_eq!(c.argv, args(&["cargo", "test"]));
    assert_eq!(c.reason, None);
    assert_eq!(h, "fa2a5292a0673151d46d74454a4888cfbd446d7f9353ffe7f65b4d7a410b759d");
}

#[test]
fn gitfather_parse_check_last_reason_wins() {
    let (c, _) = parse_check(&args(&[
        "safety", "l", "--reason", "a", "--reason", "b", "--", "echo", "hi",
    ]))
    .unwrap();
    assert_eq!(c.kind, CheckKind::Safety);
    assert_eq!(c.reason, Some("b".to_string()));
}

#[test]
fn gitfather_parse_check_errors() {
    let e = |xs: &[&str]| parse_check(&args(xs)).err().unwrap();
    assert_eq!(e(&["whole", "all"]), LedgerError::MissingSeparator);
    assert_eq!(e(&["whole", "--", "x"]), LedgerError::MissingKindLabel);
    assert_eq!(e(&["whole", "all", "--"]), LedgerError::MissingCommand);
    assert_eq!(e(&["whole", "all", "--x", "--", "y"]), LedgerError::UnknownCheckOption);
    assert_eq!(e(&["whole", "all", "--reason"]), LedgerError::MissingSeparator);
    assert_eq!(e(&["bogus", "all", "--", "y"]), LedgerError::InvalidCheckKind);
    assert_eq!(e(&["smoke", "s", "--", "cargo", "test"]), LedgerError::SmokeTestCommand);
    assert_eq!(e(&["whole", "all", "--component", "api", "--", "y"]), LedgerError::UnknownCheckOption);
    assert!(matches!(
        e(&["safety", "s", "--", "y"]),
        LedgerError::Bound { .. }
    ));
}

#[test]
fn gitfather_reason_takes_the_next_argument_whatever_it_is() {
    let (c, _) = parse_check(&args(&["whole", "all", "--reason", "--", "y"])).unwrap();
    assert_eq!(c.reason, Some("--".to_string()));
    assert_eq!(c.argv, args(&["y"]));
}

#[test]
fn gitfather_smoke_may_run_plain_commands() {
    let (c, _) = parse_check(&args(&["smoke", "compile", "--", "cargo", "check"])).unwrap();
    assert_eq!(c.kind, CheckKind::Smoke);
}

#[test]
fn gitfather_hook_denies_bare_tests() {
    let s = Session::empty("s1".to_string());
    match hook_action("PreToolUse", "Bash", "cargo test", false, &s) {
        HookAction::Deny(r) => assert_eq!(
            r,
            "recognized test command: wrap it with the-gitfather check KIND LABEL -- COMMAND"
        ),
        _ => panic!("expected a denial"),
    }
    assert!(matches!(
        hook_action("PreToolUse", "Bash", "the-gitfather check whole a -- cargo test", false, &s),
        HookAction::Allow
    ));
}

#[test]
fn gitfather_hook_guards_complete_projects() {
    let mut s = Session::empty("s1".to_string());
    s.plan(blueprint()).unwrap();
    assert!(matches!(hook_action("PreToolUse", "apply_patch", "", false, &s), HookAction::Allow));
    assert!(matches!(
        hook_action("PostToolUse", "apply_patch", "", true, &s),
        HookAction::RecordChange
    ));
    assert!(matches!(
        hook_action("PostToolUse", "apply_patch", "", false, &s),
        HookAction::Context(_)
    ));
}

#[test]
fn gitfather_context_names_the_cursor() {
    let s = Session::empty("s1".to_string());
    assert_eq!(
        context(&s),
        "the-gitfather: unplanned | phase=\"blueprint\" layer=null remaining=0 | next=plan a blueprint | command=\"${PLUGIN_DATA}/the-gitfather\" --session s1"
    );
    let mut p = Session::empty("s1".to_string());
    p.plan(blueprint()).unwrap();
    assert_eq!(
        context(&p),
        "the-gitfather: build the thing | phase=\"build\" layer=\"scaffold\" remaining=2 | next=wire all interfaces | command=\"${PLUGIN_DATA}/the-gitfather\" --session s1"
    );
}

#[test]
fn gitfather_context_is_cut_to_1500() {
    let mut s = Session::empty("s1".to_string());
    let mut b = blueprint();
    b.objective = "x".repeat(4000);
    s.plan(b).unwrap();
    match hook_action("SessionStart", "", "", false, &s) {
        HookAction::Context(c) => {
            assert_eq!(c.chars().count(), 1500);
            assert!(context(&s).starts_with(&c));
        }
        _ => panic!("expected context"),
    }
}

#[test]
fn gitfather_wrapper_called_by_path_passes() {
    assert!(contains_wrapper("/d/the-gitfather --session s1 check whole all -- cargo test"));
    let s = Session::empty("s1".to_string());
    assert!(matches!(
        hook_action(
            "PreToolUse",
            "Bash",
            "/d/the-gitfather --session s1 check whole all -- cargo test",
            false,
            &s
        ),
        HookAction::Allow
    ));
    assert!(matches!(
        hook_action("PreToolUse", "Bash", "\"${PLUGIN_DATA}/the-gitfather\" check whole all -- cargo test", false, &s),
        HookAction::Allow
    ));
}
