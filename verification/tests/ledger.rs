use fathers::ledger::blueprint::check_blueprint;
use fathers::ledger::checks::argv_hash;
use fathers::ledger::errors::exit_failure;
use fathers::ledger::model::{
    Blueprint, CheckKind, CheckRefusal, Field, Invalidation, LedgerError, Phase, ReceiptStatus, Revision, Session,
    MAX_TEXT,
};
use fathers::table::Table;

fn args(xs: &[&str]) -> Vec<String> {
    xs.iter().map(|x| x.to_string()).collect()
}

fn blueprint() -> Blueprint {
    Blueprint {
        objective: "build the thing".to_string(),
        components: args(&["state", "cli"]),
        layers: args(&["scaffold", "behavior"]),
        next: "wire all interfaces".to_string(),
        dependencies: Table::new(),
    }
}

fn planned() -> Session {
    let mut s = Session::empty("s1".to_string());
    s.plan(blueprint()).unwrap();
    s
}

/// A reservation, with a refused repeat read as its error.
fn reserve(s: &mut Session, kind: CheckKind, label: &str, hash: &str, comp: Option<&str>) -> Result<u64, LedgerError> {
    match s.reserve_check(kind, &label.to_string(), &hash.to_string(), &comp.map(|c| c.to_string())) {
        Ok(g) => Ok(g),
        Err(CheckRefusal::Refused(e)) => Err(e),
        Err(CheckRefusal::Repeated { .. }) => Err(LedgerError::CheckAlreadyReserved),
    }
}

fn mark(s: &mut Session, c: &str, e: &str) -> Result<(), LedgerError> {
    s.mark(&c.to_string(), &e.to_string())
}

/// A session in proof, with every layer marked.
fn in_proof() -> Session {
    let mut s = planned();
    for _ in 0..2 {
        mark(&mut s, "state", "ok").unwrap();
        mark(&mut s, "cli", "ok").unwrap();
        s.advance().unwrap();
    }
    assert_eq!(s.phase, Phase::Proof);
    s
}

fn whole(s: &mut Session, ok: bool) -> u64 {
    let h = "h".to_string();
    let g = reserve(s, CheckKind::Whole, "all", &h, None).unwrap();
    s.record_check(g, CheckKind::Whole, &h, &None, ok, if ok { 0 } else { 1 }).unwrap();
    g
}

#[test]
fn ledger_empty_session() {
    let s = Session::empty("s1".to_string());
    assert_eq!(s.phase, Phase::Blueprint);
    assert_eq!(s.cursor.next, "plan a blueprint");
    assert_eq!(s.generation, 0);
    assert_eq!(s.revision, 0);
    assert!(s.is_record_of("s1"));
    assert!(!s.is_record_of("s2"));
}

#[test]
fn ledger_first_plan_is_revision_one() {
    let s = planned();
    assert_eq!(s.revision, 1);
    assert_eq!(s.phase, Phase::Build);
    assert_eq!(s.cursor.layer, Some("scaffold".to_string()));
    assert_eq!(s.cursor.incomplete_components, args(&["state", "cli"]));
    assert_eq!(s.cursor.next, "wire all interfaces");
}

#[test]
fn ledger_plan_never_replaces() {
    let mut s = planned();
    assert_eq!(s.plan(blueprint()), Err(LedgerError::BlueprintExists));
    assert_eq!(s.revision, 1);
}

#[test]
fn ledger_blueprint_validation() {
    let mut b = blueprint();
    b.layers = args(&["behavior", "scaffold"]);
    assert_eq!(check_blueprint(&b), Err(LedgerError::BlueprintShape));
    let mut b = blueprint();
    b.components = args(&["a", "a"]);
    assert_eq!(check_blueprint(&b), Err(LedgerError::DuplicateId));
    let mut b = blueprint();
    b.objective = " ".to_string();
    assert_eq!(check_blueprint(&b), Err(LedgerError::Bound { field: Field::Objective, max: MAX_TEXT }));
    let mut b = blueprint();
    b.components = args(&["", "x"]);
    assert_eq!(check_blueprint(&b), Err(LedgerError::Bound { field: Field::BlueprintId, max: 256 }));
    let mut b = blueprint();
    b.dependencies.insert("cli".to_string(), args(&["ghost"]));
    assert_eq!(check_blueprint(&b), Err(LedgerError::UnknownComponent));
    let mut b = blueprint();
    b.dependencies.insert("cli".to_string(), args(&["cli"]));
    assert_eq!(check_blueprint(&b), Err(LedgerError::InvalidDependencyEdge));
    let mut b = blueprint();
    b.dependencies.insert("cli".to_string(), args(&["state", "state"]));
    assert_eq!(check_blueprint(&b), Err(LedgerError::InvalidDependencyEdge));
    let mut b = blueprint();
    b.dependencies.insert("cli".to_string(), args(&["state"]));
    assert_eq!(check_blueprint(&b), Ok(()));
    b.dependencies.insert("state".to_string(), args(&["cli"]));
    assert_eq!(check_blueprint(&b), Err(LedgerError::DependencyCycle));
}

#[test]
fn ledger_advance_needs_complete_layer() {
    let mut s = planned();
    mark(&mut s, "state", "ok").unwrap();
    assert_eq!(s.cursor.incomplete_components, args(&["cli"]));
    assert_eq!(s.advance(), Err(LedgerError::IncompleteLayer));
    mark(&mut s, "cli", "ok").unwrap();
    s.advance().unwrap();
    assert_eq!(s.cursor.layer, Some("behavior".to_string()));
    assert_eq!(s.phase, Phase::Build);
}

#[test]
fn ledger_mark_errors() {
    let mut u = Session::empty("s1".to_string());
    assert_eq!(mark(&mut u, "state", "ok"), Err(LedgerError::NoBlueprint));
    let mut s = planned();
    assert_eq!(mark(&mut s, "ghost", "ok"), Err(LedgerError::UnknownComponent));
    assert_eq!(mark(&mut s, "state", ""), Err(LedgerError::Bound { field: Field::Evidence, max: 8192 }));
    let mut p = in_proof();
    assert_eq!(mark(&mut p, "state", "ok"), Err(LedgerError::MarkPhase));
    assert_eq!(p.advance(), Err(LedgerError::AdvancePhase));
}

#[test]
fn ledger_cursor_records_next_action() {
    let mut s = planned();
    s.cursor("write the parser".to_string()).unwrap();
    assert_eq!(s.cursor.next, "write the parser");
    assert_eq!(s.phase, Phase::Build);
    let before = s.cursor.next.clone();
    s.cursor(before.clone()).unwrap();
    assert_eq!(s.cursor.next, before);
    let mut u = Session::empty("s1".to_string());
    assert_eq!(u.cursor("x".to_string()), Err(LedgerError::NoBlueprint));
    assert_eq!(s.cursor("".to_string()), Err(LedgerError::Bound { field: Field::Cursor, max: MAX_TEXT }));
}

#[test]
fn ledger_full_lifecycle() {
    let mut s = in_proof();
    assert_eq!(s.cursor.next, "run a whole check");
    assert_eq!(s.finish(), Err(LedgerError::FinishNotReady));
    let g = whole(&mut s, true);
    assert_eq!(s.proof_generation, Some(g));
    assert_eq!(s.receipts[0].status, ReceiptStatus::Success);
    assert_eq!(s.receipts[0].exit_code, Some(0));
    s.finish().unwrap();
    assert_eq!(s.phase, Phase::Complete);
    s.changed("new input".to_string()).unwrap();
    assert_eq!(s.phase, Phase::Proof);
    assert_eq!(s.generation, g + 1);
    assert_eq!(s.proof_generation, None);
    assert_eq!(s.cursor.next, "run a whole check after the declared change");
}

#[test]
fn ledger_issue_voids_proof_and_repair_needs_resolution() {
    let mut s = in_proof();
    whole(&mut s, true);
    s.issue(&"cli".to_string(), "flag parsing".to_string()).unwrap();
    assert_eq!(s.phase, Phase::Repair);
    assert_eq!(s.proof_generation, None);
    assert_eq!(
        s.issue(&"cli".to_string(), "again".to_string()),
        Err(LedgerError::IssueAlreadyOpen)
    );
    assert_eq!(s.advance(), Err(LedgerError::OpenIssuesRemain));
    assert_eq!(mark(&mut s, "state", "ok"), Err(LedgerError::NoOpenIssueForComponent));
    let h = "n".to_string();
    let g = reserve(&mut s, CheckKind::Narrow, "cli", &h, None).unwrap();
    s.record_check(g, CheckKind::Narrow, &h, &None, true, 0).unwrap();
    mark(&mut s, "cli", "fixed").unwrap();
    assert!(s.issues[0].resolved);
    s.advance().unwrap();
    assert_eq!(s.phase, Phase::Proof);
    assert_eq!(s.cursor.next, "run a whole check for final confirmation");
}

#[test]
fn ledger_issue_errors() {
    let mut s = planned();
    assert_eq!(s.issue(&"cli".to_string(), "x".to_string()), Err(LedgerError::IssuePhase));
    let mut p = in_proof();
    assert_eq!(p.issue(&"ghost".to_string(), "x".to_string()), Err(LedgerError::UnknownComponent));
    assert_eq!(
        p.issue(&"cli".to_string(), "".to_string()),
        Err(LedgerError::Bound { field: Field::Reason, max: MAX_TEXT })
    );
}

#[test]
fn ledger_no_repeated_check() {
    let mut s = in_proof();
    let h = "h".to_string();
    reserve(&mut s, CheckKind::Whole, "all", &h, None).unwrap();
    assert_eq!(reserve(&mut s, CheckKind::Whole, "other", &h, None), Err(LedgerError::CheckAlreadyReserved));
    assert_eq!(s.receipts.len(), 1);
}

#[test]
fn ledger_check_phase_rules() {
    let h = "h".to_string();
    let l = "l".to_string();
    let mut u = Session::empty("s1".to_string());
    assert_eq!(reserve(&mut u, CheckKind::Smoke, &l, &h, None), Err(LedgerError::NoBlueprint));
    let mut s = planned();
    assert_eq!(reserve(&mut s, CheckKind::Whole, &l, &h, None), Err(LedgerError::WholePhase));
    assert_eq!(reserve(&mut s, CheckKind::Narrow, &l, &h, None), Err(LedgerError::NarrowPhase));
    assert_eq!(reserve(&mut s, CheckKind::Smoke, &l, &h, None), Ok(0));
    assert_eq!(reserve(&mut s, CheckKind::Safety, &l, &h, None), Ok(0));
    let mut p = in_proof();
    assert_eq!(reserve(&mut p, CheckKind::Smoke, &l, &h, None), Err(LedgerError::SmokePhase));
    assert_eq!(p.record_check(9, CheckKind::Whole, &h, &None, true, 0), Err(LedgerError::ReceiptLost));
}

#[test]
fn ledger_stale_result_never_proves() {
    let mut s = in_proof();
    let h = "h".to_string();
    let g = reserve(&mut s, CheckKind::Whole, "all", &h, None).unwrap();
    s.changed("edit".to_string()).unwrap();
    s.record_check(g, CheckKind::Whole, &h, &None, true, 0).unwrap();
    assert_eq!(s.proof_generation, None);
    assert_eq!(s.finish(), Err(LedgerError::FinishNotReady));
}

#[test]
fn ledger_failed_whole_check_clears_proof() {
    let mut s = in_proof();
    whole(&mut s, false);
    assert_eq!(s.proof_generation, None);
    assert_eq!(s.receipts[0].status, ReceiptStatus::Failed);
    assert_eq!(s.receipts[0].exit_code, Some(1));
}

#[test]
fn ledger_reset_starts_over() {
    let mut s = in_proof();
    whole(&mut s, true);
    assert_eq!(
        s.reset("".to_string()),
        Err(LedgerError::Bound { field: Field::ResetReason, max: MAX_TEXT })
    );
    s.reset("new task".to_string()).unwrap();
    assert_eq!(s.phase, Phase::Blueprint);
    assert!(s.blueprint.is_none());
    assert_eq!(s.generation, 1);
    assert_eq!(s.revision, 2);
    assert!(s.receipts.is_empty());
    assert!(s.issues.is_empty());
    assert_eq!(s.cursor.next, "plan a blueprint");
}

#[test]
fn ledger_revision_rules() {
    let mut s = planned();
    mark(&mut s, "state", "ok").unwrap();
    let stale = Revision {
        expected_revision: 7,
        reason: "r".to_string(),
        blueprint: blueprint(),
        invalidate: Vec::new(),
    };
    assert_eq!(s.revise(stale), Err(LedgerError::StaleRevision));
    let same = Revision { expected_revision: 1, reason: "r".to_string(), blueprint: blueprint(), invalidate: Vec::new() };
    s.revise(same).unwrap();
    assert_eq!(s.revision, 1);
    assert_eq!(s.generation, 0);
    let mut b = blueprint();
    b.components = args(&["state", "cli", "export"]);
    let add = Revision { expected_revision: 1, reason: "add export".to_string(), blueprint: b, invalidate: Vec::new() };
    s.revise(add).unwrap();
    assert_eq!(s.revision, 2);
    assert_eq!(s.generation, 1);
    assert_eq!(s.phase, Phase::Build);
    assert_eq!(s.cursor.layer, Some("scaffold".to_string()));
    assert_eq!(s.cursor.incomplete_components, args(&["cli", "export"]));
    assert!(s.marks.get(&"scaffold".to_string()).unwrap().contains_key(&"state".to_string()));
    let inv = Revision {
        expected_revision: 2,
        reason: "redo state".to_string(),
        blueprint: {
            let mut b = blueprint();
            b.components = args(&["state", "cli", "export"]);
            b
        },
        invalidate: vec![Invalidation { component: "state".to_string(), layer: "scaffold".to_string() }],
    };
    s.revise(inv).unwrap();
    assert!(!s.marks.get(&"scaffold".to_string()).unwrap().contains_key(&"state".to_string()));
    assert_eq!(s.cursor.incomplete_components, args(&["state", "cli", "export"]));
}

#[test]
fn ledger_revision_without_plan_and_bad_reason() {
    let mut u = Session::empty("s1".to_string());
    let q = Revision { expected_revision: 0, reason: "r".to_string(), blueprint: blueprint(), invalidate: Vec::new() };
    assert_eq!(u.revise(q), Err(LedgerError::NoBlueprint));
    let mut s = planned();
    let mut b = blueprint();
    b.next = "other".to_string();
    let q = Revision { expected_revision: 1, reason: " ".to_string(), blueprint: b, invalidate: Vec::new() };
    assert_eq!(s.revise(q), Err(LedgerError::Bound { field: Field::Reason, max: MAX_TEXT }));
}

#[test]
fn ledger_argv_digest_is_sha256_of_json() {
    assert_eq!(
        argv_hash(&args(&["cargo", "test"])),
        "fa2a5292a0673151d46d74454a4888cfbd446d7f9353ffe7f65b4d7a410b759d"
    );
}

#[test]
fn ledger_error_messages() {
    assert_eq!(
        LedgerError::Bound { field: Field::SafetyReason, max: MAX_TEXT }.message(),
        "safety reason must be nonempty and at most 4096 bytes"
    );
    assert_eq!(LedgerError::StaleRevision.message(), "stale revision");
    assert_eq!(LedgerError::MissingSeparator.message(), "check requires --");
    assert_eq!(exit_failure(3), "check failed with exit code 3");
    assert_eq!(exit_failure(-2), "check failed with exit code -2");
    assert_eq!(exit_failure(i32::MIN), "check failed with exit code -2147483648");
}

#[test]
fn ledger_amendment_drops_removed_components_and_layers() {
    let mut s = planned();
    mark(&mut s, "state", "ok").unwrap();
    mark(&mut s, "cli", "ok").unwrap();
    s.advance().unwrap();
    mark(&mut s, "cli", "ok").unwrap();
    let mut b = blueprint();
    b.components = args(&["cli"]);
    b.layers = args(&["scaffold"]);
    let q = Revision { expected_revision: 1, reason: "shrink".to_string(), blueprint: b, invalidate: Vec::new() };
    s.revise(q).unwrap();
    assert!(!s.marks.contains_key(&"behavior".to_string()));
    let scaffold = s.marks.get(&"scaffold".to_string()).unwrap();
    assert!(!scaffold.contains_key(&"state".to_string()));
    assert!(scaffold.contains_key(&"cli".to_string()));
    assert_eq!(s.phase, Phase::Proof);
    assert_eq!(s.cursor.next, "run a whole check");
    assert_eq!(s.revision, 2);
    assert_eq!(s.generation, 1);
    assert_eq!(s.proof_generation, None);
}

#[test]
fn ledger_stale_guard_on_writes() {
    let s = planned();
    assert_eq!(s.check_revision(None), Ok(()));
    assert_eq!(s.check_revision(Some(1)), Ok(()));
    assert_eq!(s.check_revision(Some(0)), Err(LedgerError::StaleRevision));
}

fn deps_blueprint(deps: &[(&str, &[&str])], layers: &[&str]) -> Blueprint {
    let mut t = Table::new();
    for (c, ps) in deps {
        t.insert(c.to_string(), args(ps));
    }
    Blueprint {
        objective: "build".to_string(),
        components: args(&["api", "ui"]),
        layers: args(layers),
        next: "go".to_string(),
        dependencies: t,
    }
}

fn all_marked(b: Blueprint) -> Session {
    let n = b.layers.len();
    let mut s = Session::empty("s1".to_string());
    s.plan(b).unwrap();
    for _ in 0..n {
        mark(&mut s, "api", "ok").unwrap();
        mark(&mut s, "ui", "ok").unwrap();
        s.advance().unwrap();
    }
    assert_eq!(s.phase, Phase::Proof);
    s
}

fn has_mark(s: &Session, l: &str, c: &str) -> bool {
    match s.marks.get(&l.to_string()) {
        Some(m) => m.contains_key(&c.to_string()),
        None => false,
    }
}

#[test]
fn ledger_next_action_revision_keeps_phase_and_proof() {
    let mut s = in_proof();
    let g = whole(&mut s, true);
    let mut b = blueprint();
    b.next = "polish the docs".to_string();
    let q = Revision { expected_revision: 1, reason: "steer".to_string(), blueprint: b, invalidate: Vec::new() };
    s.revise(q).unwrap();
    assert_eq!(s.revision, 2);
    assert_eq!(s.phase, Phase::Proof);
    assert_eq!(s.generation, g);
    assert_eq!(s.proof_generation, Some(g));
    assert_eq!(s.blueprint.as_ref().unwrap().next, "polish the docs");
    assert_eq!(s.cursor.next, "polish the docs");
    s.finish().unwrap();
}

#[test]
fn ledger_open_issue_keeps_repair_flow() {
    let mut s = in_proof();
    s.issue(&"cli".to_string(), "flag parsing".to_string()).unwrap();
    let mut b = blueprint();
    b.objective = "build the better thing".to_string();
    let q = Revision { expected_revision: 1, reason: "scope".to_string(), blueprint: b, invalidate: Vec::new() };
    s.revise(q).unwrap();
    assert_eq!(s.phase, Phase::Repair);
    assert_eq!(s.issues.len(), 1);
    assert!(!s.issues[0].resolved);
    assert_eq!(s.proof_generation, None);
}

#[test]
fn ledger_invalidation_clears_dependents() {
    let mut s = all_marked(deps_blueprint(&[("ui", &["api"])], &["scaffold", "behavior"]));
    let mut inv = Vec::new();
    inv.push(Invalidation { component: "api".to_string(), layer: "behavior".to_string() });
    let q = Revision {
        expected_revision: 1,
        reason: "redo api".to_string(),
        blueprint: deps_blueprint(&[("ui", &["api"])], &["scaffold", "behavior"]),
        invalidate: inv,
    };
    s.revise(q).unwrap();
    assert!(!has_mark(&s, "behavior", "api"));
    assert!(!has_mark(&s, "behavior", "ui"));
    assert!(has_mark(&s, "scaffold", "api"));
    assert!(has_mark(&s, "scaffold", "ui"));
    assert_eq!(s.phase, Phase::Build);
    assert_eq!(s.cursor.layer, Some("behavior".to_string()));
    assert_eq!(s.cursor.incomplete_components, args(&["api", "ui"]));
}

#[test]
fn ledger_changed_edges_invalidate_from_scaffold() {
    let mut s = all_marked(deps_blueprint(&[], &["scaffold"]));
    let q = Revision {
        expected_revision: 1,
        reason: "ui needs api".to_string(),
        blueprint: deps_blueprint(&[("ui", &["api"])], &["scaffold"]),
        invalidate: Vec::new(),
    };
    s.revise(q).unwrap();
    assert!(!has_mark(&s, "scaffold", "ui"));
    assert!(has_mark(&s, "scaffold", "api"));
    assert_eq!(s.phase, Phase::Build);
    assert_eq!(s.cursor.layer, Some("scaffold".to_string()));
    assert_eq!(s.cursor.incomplete_components, args(&["ui"]));
}

#[test]
fn ledger_repeat_reports_prior_receipt_and_cursor() {
    let mut s = in_proof();
    let h = "h".to_string();
    reserve(&mut s, CheckKind::Whole, "all", &h, None).unwrap();
    match s.reserve_check(CheckKind::Whole, &"again".to_string(), &h, &None) {
        Err(CheckRefusal::Repeated { prior, cursor }) => {
            assert_eq!(prior.label, "all");
            assert_eq!(prior.argv_sha256, "h");
            assert_eq!(prior.generation, 0);
            assert_eq!(prior.status, ReceiptStatus::Running);
            assert_eq!(cursor.next, "run a whole check");
        }
        _ => panic!("expected a refused repeat"),
    }
    assert_eq!(s.receipts.len(), 1);
}

#[test]
fn ledger_scoped_checks_follow_component_epochs() {
    let mut s = all_marked(deps_blueprint(&[("ui", &["api"])], &["scaffold", "behavior"]));
    s.issue(&"api".to_string(), "slow".to_string()).unwrap();
    assert_eq!(reserve(&mut s, CheckKind::Narrow, "n", "h", Some("ghost")), Err(LedgerError::UnknownComponent));
    assert_eq!(reserve(&mut s, CheckKind::Whole, "w", "h", Some("api")), Err(LedgerError::WholeComponent));
    let g = reserve(&mut s, CheckKind::Narrow, "n", "h", Some("ui")).unwrap();
    s.record_check(g, CheckKind::Narrow, &"h".to_string(), &Some("ui".to_string()), true, 0).unwrap();
    assert_eq!(s.receipts[0].component, Some("ui".to_string()));
    assert_eq!(s.receipts[0].status, ReceiptStatus::Success);
    assert_eq!(reserve(&mut s, CheckKind::Narrow, "n", "h", Some("ui")), Err(LedgerError::CheckAlreadyReserved));
    // Another component changes: the generation moves, ui's inputs do not.
    let mut b = deps_blueprint(&[("ui", &["api"])], &["scaffold", "behavior"]);
    b.components = args(&["api", "ui", "docs"]);
    let mut inv = Vec::new();
    inv.push(Invalidation { component: "docs".to_string(), layer: "scaffold".to_string() });
    let q = Revision { expected_revision: 1, reason: "add docs".to_string(), blueprint: b, invalidate: inv };
    s.revise(q).unwrap();
    assert_eq!(s.generation, 1);
    assert_eq!(s.phase, Phase::Build);
    let mut p = s;
    // Back in repair with ui unchanged, the scoped repeat is still refused.
    mark(&mut p, "docs", "ok").unwrap();
    p.advance().unwrap();
    mark(&mut p, "docs", "ok").unwrap();
    p.advance().unwrap();
    assert_eq!(p.phase, Phase::Proof);
    p.issue(&"docs".to_string(), "typo".to_string()).unwrap();
    assert_eq!(reserve(&mut p, CheckKind::Narrow, "n", "h", Some("ui")), Err(LedgerError::CheckAlreadyReserved));
    // An unscoped change moves every epoch on, so it may run again.
    p.changed("edit".to_string()).unwrap();
    assert!(reserve(&mut p, CheckKind::Narrow, "n", "h", Some("ui")).is_ok());
}
