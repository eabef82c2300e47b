use fathers::graphfather::checks::parse_check;
use fathers::graphfather::handoff::{handoff_session, may_continue};
use fathers::graphfather::hooks::{
    argv_scan_in_bounds, command_start_of, contains_wrapper, context, hook_action, is_recognized_test,
    patch_succeeded, plan_file_name, recognized_argv, shell_quote, shell_tokens, test_scan_in_bounds,
    PatchResponse,
};
use fathers::graphfather::markdown::render;
use fathers::graphfather::trust::{trust_edits, HookEntry, TrustError};
use fathers::hook::HookAction;
use fathers::ledger::model::{Blueprint, CheckKind, Field, LedgerError, Session, MAX_ID};
use fathers::table::Table;

fn args(xs: &[&str]) -> Vec<String> {
    xs.iter().map(|x| x.to_string()).collect()
}

fn chars(xs: &[&str]) -> Vec<Vec<char>> {
    xs.iter().map(|x| x.chars().collect()).collect()
}

fn blueprint() -> Blueprint {
    let mut deps = Table::new();
    deps.insert("ui".to_string(), args(&["api"]));
    Blueprint {
        objective: "build".to_string(),
        components: args(&["api", "ui"]),
        layers: args(&["scaffold", "behavior"]),
        next: "go".to_string(),
        dependencies: deps,
    }
}

#[test]
fn hooks_recognizes_real_tests_not_search() {
    assert!(is_recognized_test("cd x && cargo test"));
    assert!(is_recognized_test("npx vitest run"));
    assert!(!is_recognized_test("rg 'cargo test' README.md"));
    assert!(is_recognized_test("cd app && npm run test:mvp"));
    assert!(!is_recognized_test("echo cargo test"));
}

#[test]
fn graphfather_skips_assignments_and_cd() {
    assert!(is_recognized_test("RUST_LOG=1 cargo test"));
    assert!(is_recognized_test("cd a; cd b; FOO=bar pytest"));
    assert!(!is_recognized_test("cargo --x=1 test"));
    assert!(!is_recognized_test("A=1"));
    assert!(!is_recognized_test("grep -r cargo test"));
    assert!(is_recognized_test("\"pytest\" -k x"));
}

#[test]
fn graphfather_tokens_drop_quotes_and_separators() {
    assert_eq!(shell_tokens("cd 'x' && \"npm\" test;"), chars(&["cd", "x", "npm", "test"]));
}

#[test]
fn graphfather_scan_bounds() {
    assert!(test_scan_in_bounds("cargo test"));
    assert!(test_scan_in_bounds("cd x"));
    assert!(!test_scan_in_bounds("A=1 cd"));
    assert_eq!(command_start_of(&chars(&["A=1", "cd", "x", "cargo"])), Some(3));
    assert_eq!(command_start_of(&chars(&["cd"])), None);
    assert!(argv_scan_in_bounds(&args(&["cargo", "test"])));
    assert!(!argv_scan_in_bounds(&args(&["cd"])));
}

#[test]
fn graphfather_recognized_argv() {
    assert!(recognized_argv(&args(&["cargo", "test", "--lib"])));
    assert!(recognized_argv(&args(&["npx", "playwright", "test"])));
    assert!(!recognized_argv(&args(&["cargo", "check"])));
    assert!(!recognized_argv(&args(&[])));
}

#[test]
fn graphfather_wrapper_may_be_a_path() {
    assert!(contains_wrapper("\"/data/the-graphfather\" check whole a -- cargo test"));
    assert!(contains_wrapper("x && /bin/the-graphfather status"));
    assert!(!contains_wrapper("the-graphfather-old check"));
}

#[test]
fn graphfather_patch_outcomes() {
    let obj = |success: Option<bool>, has_error: bool, output: Option<&str>| PatchResponse::Object {
        success,
        has_error,
        output: output.map(|s| s.to_string()),
    };
    assert!(patch_succeeded(&obj(Some(true), true, None)));
    assert!(patch_succeeded(&obj(None, false, Some("Done. SUCCESS"))));
    assert!(!patch_succeeded(&obj(None, true, Some("success"))));
    assert!(!patch_succeeded(&obj(Some(false), false, Some("failed"))));
    assert!(patch_succeeded(&PatchResponse::Text("Success!".to_string())));
    assert!(!patch_succeeded(&PatchResponse::Text("error".to_string())));
    assert!(!patch_succeeded(&PatchResponse::Other));
}

#[test]
fn graphfather_shell_quote_escapes_single_quotes() {
    assert_eq!(shell_quote("it's"), "'it'\\''s'");
    assert_eq!(shell_quote(""), "''");
}

#[test]
fn graphfather_plan_file_is_the_id_digest() {
    assert_eq!(
        plan_file_name("s1"),
        "e8bc163c82eee18733288c7d4ac636db3a6deb013ef2d37b68322be20edc45cc.md"
    );
}

#[test]
fn graphfather_context_leads_with_the_command() {
    let s = Session::empty("s1".to_string());
    assert_eq!(
        context("SessionStart", "/bin/gf", "/p/skills/build/SKILL.md", "/d/plans/x.md", &s),
        "command='/bin/gf' --session 's1' --revision 0 | session='s1' | revision=0 | plan='/d/plans/x.md' | skill='/p/skills/build/SKILL.md' | read the pinned plan before continuing; use the guarded revision for plan changes. phase=\"blueprint\" layer=null remaining=0 | next=plan a blueprint | objective=unplanned"
    );
    let c = context("UserPromptSubmit", "gf", "k", "p", &s);
    assert!(c.contains("| reconcile the latest user message with the pinned plan before continuing;"));
}

#[test]
fn graphfather_hook_answers() {
    let mut s = Session::empty("s1".to_string());
    let deny = |a: HookAction| match a {
        HookAction::Deny(r) => r,
        _ => panic!("expected a denial"),
    };
    assert_eq!(
        deny(hook_action("PreToolUse", "Bash", "cd x && cargo test", false, "gf", "k", "p", &s)),
        "recognized test command: wrap it with the-graphfather check KIND LABEL -- COMMAND"
    );
    assert_eq!(
        deny(hook_action("PreToolUse", "apply_patch", "", false, "gf", "k", "p", &s)),
        "plan a blueprint before editing"
    );
    s.plan(blueprint()).unwrap();
    assert!(matches!(
        hook_action("PreToolUse", "apply_patch", "", false, "gf", "k", "p", &s),
        HookAction::Allow
    ));
    assert!(matches!(
        hook_action("PostToolUse", "apply_patch", "", true, "gf", "k", "p", &s),
        HookAction::RecordChange
    ));
    match hook_action("SessionStart", "", "", false, "gf", "k", "p", &s) {
        HookAction::Context(c) => assert!(c.starts_with("command='gf' --session 's1' --revision 1 |")),
        _ => panic!("expected context"),
    }
}

#[test]
fn graphfather_parse_check_bounds_the_label() {
    let long = "l".repeat(MAX_ID + 1);
    assert_eq!(
        parse_check(&args(&["whole", &long, "--", "cargo", "test"])).err(),
        Some(LedgerError::Bound { field: Field::Label, max: MAX_ID })
    );
    assert_eq!(
        parse_check(&args(&["smoke", "s", "--", "cd", "x", "pytest"])).err(),
        Some(LedgerError::SmokeTestCommand)
    );
    let (c, h) = parse_check(&args(&["smoke", "s", "--", "echo", "hi"])).unwrap();
    assert_eq!(c.kind, CheckKind::Smoke);
    assert_eq!(h, "77caf50a05bf92616d3f6cb8a7b1f2cc97c4dc104dbae8711483fd1e0645d3e4");
}

#[test]
fn graphfather_handoff_prefers_graphfather_session() {
    let note = "# handoff\n## Scope\n- current session: abc\n- graphfather session:  g1 \n## Objective\nship";
    assert_eq!(handoff_session(note), Some(Some("g1".to_string())));
    let note = "## Scope\n- current session: abc\r\n- graphfather session:   \n## Objective\n";
    assert_eq!(handoff_session(note), Some(Some("abc".to_string())));
    assert_eq!(handoff_session("## Scope\nnothing here\n## Objective"), Some(None));
    assert_eq!(handoff_session("## Scope\n- current session: abc\n"), None);
    assert_eq!(handoff_session("no scope"), None);
}

#[test]
fn graphfather_markdown_of_an_unplanned_session() {
    let s = Session::empty("s1".to_string());
    assert_eq!(
        render(&s, &[]),
        "# the graphfather plan\n\n## objective\nunplanned\n\nrevision: 0\nphase: blueprint\nexact next action: plan a blueprint\n\n\n## open repair issues\n"
    );
}

#[test]
fn graphfather_markdown_shows_progress_and_recent_revisions() {
    let mut s = Session::empty("s1".to_string());
    s.plan(blueprint()).unwrap();
    s.mark(&"api".to_string(), &"done".to_string()).unwrap();
    let history: Vec<(u64, String)> = (1..=10).map(|r| (r, format!("r{r}"))).collect();
    let page = render(&s, &history);
    assert_eq!(
        page,
        "# the graphfather plan\n\n## objective\nbuild\n\nrevision: 1\nphase: build\nexact next action: go\n\n## components\n- api (dependencies: [])\n- ui (dependencies: [\"api\"])\n\n## layer progress\n### scaffold\n\n- [x] api: done\n- [ ] ui\n\n### behavior\n\n- [ ] api\n- [ ] ui\n\n\n## open repair issues\n\n## recent superseded revisions\n- revision 3: r3\n- revision 4: r4\n- revision 5: r5\n- revision 6: r6\n- revision 7: r7\n- revision 8: r8\n- revision 9: r9\n- revision 10: r10\n"
    );
}

#[test]
fn graphfather_trust_touches_only_owned_hooks() {
    let entry = |p: Option<&str>, k: Option<&str>, h: Option<&str>| HookEntry {
        plugin_id: p.map(|x| x.to_string()),
        key: k.map(|x| x.to_string()),
        current_hash: h.map(|x| x.to_string()),
    };
    let hooks = vec![
        entry(Some("other@other"), Some("o"), Some("oh")),
        entry(Some("the-graphfather@the-graphfather"), Some("k1"), Some("h1")),
    ];
    let on = trust_edits(&hooks, true).ok().unwrap();
    assert_eq!(on.len(), 1);
    assert_eq!(on[0].key_path, "hooks.state.\"k1\"");
    assert_eq!(on[0].trusted_hash, Some("h1".to_string()));
    let off = trust_edits(&hooks, false).ok().unwrap();
    assert_eq!(off[0].trusted_hash, None);
    assert_eq!(trust_edits(&vec![entry(None, Some("k"), Some("h"))], true).err(), Some(TrustError::NoOwnedHooks));
    assert_eq!(
        trust_edits(&vec![entry(Some("the-graphfather@the-graphfather"), None, Some("h"))], true).err(),
        Some(TrustError::MissingKey)
    );
    assert_eq!(
        trust_edits(&vec![entry(Some("the-graphfather@the-graphfather"), Some("k"), None)], true).err(),
        Some(TrustError::MissingHash)
    );
    assert_eq!(TrustError::NoOwnedHooks.message(), "no owned hooks");
}

#[test]
fn graphfather_context_is_cut_to_1500() {
    let mut s = Session::empty("s1".to_string());
    let mut b = blueprint();
    b.objective = "o".repeat(4000);
    b.next = "n".repeat(4000);
    s.plan(b).unwrap();
    let full = context("SessionStart", "gf", "k", "p", &s);
    assert!(full.ends_with(&format!("| next={} | objective={}", "n".repeat(240), "o".repeat(240))));
    let plan = "/p".repeat(600);
    let full = context("SessionStart", "gf", "k", &plan, &s);
    match hook_action("SessionStart", "", "", false, "gf", "k", &plan, &s) {
        HookAction::Context(c) => {
            assert_eq!(c.chars().count(), 1500);
            assert!(full.starts_with(&c));
            assert!(c.starts_with("command='gf' --session 's1' --revision 1 | session='s1' | revision=1 | plan='/p/p"));
        }
        _ => panic!("expected context"),
    }
}

#[test]
fn graphfather_handoff_continues_only_planned_origins() {
    let mut planned = Session::empty("g1".to_string());
    planned.plan(blueprint()).unwrap();
    assert!(may_continue("s2", "g1", &Some(planned)));
    assert!(!may_continue("s2", "g1", &Some(Session::empty("g1".to_string()))));
    assert!(!may_continue("s2", "g1", &None));
    let mut same = Session::empty("s2".to_string());
    same.plan(blueprint()).unwrap();
    assert!(!may_continue("s2", "s2", &Some(same)));
    assert!(!may_continue("s2", " ", &None));
}

#[test]
fn graphfather_check_may_be_scoped_to_a_component() {
    let (c, _) = parse_check(&args(&["smoke", "compile", "--component", "api", "--", "cargo", "build"])).unwrap();
    assert_eq!(c.component, Some("api".to_string()));
    assert_eq!(c.argv, args(&["cargo", "build"]));
    assert_eq!(
        parse_check(&args(&["whole", "all", "--component", "api", "--", "cargo", "test"])).err(),
        Some(LedgerError::WholeComponent)
    );
    let (c, _) = parse_check(&args(&["narrow", "n", "--reason", "r", "--component", "ui", "--", "cargo", "test"])).unwrap();
    assert_eq!(c.reason, Some("r".to_string()));
    assert_eq!(c.component, Some("ui".to_string()));
}

#[test]
fn graphfather_argv_reads_as_its_command() {
    for words in [
        vec!["cargo", "test"],
        vec!["cd", "x", "npm", "run", "test:mvp"],
        vec!["echo", "cargo", "test"],
        vec!["A=1", "pytest"],
        vec!["cargo", "build"],
    ] {
        let a = args(&words);
        assert_eq!(recognized_argv(&a), is_recognized_test(&a.join(" ")));
    }
}
