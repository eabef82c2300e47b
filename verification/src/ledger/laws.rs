//! Properties of the ledger that hold across requests: the consistency every
//! transition keeps, and the guarantees the ledger exists to give.
use vstd::prelude::*;
use crate::ledger::blueprint::{blueprint_error, shape_ok, validity_error};
use crate::ledger::model::{
    first_index, has_open_issue, is_text, layer_marks, lemma_first_index, marked, open_for,
    open_issue_of, saturating_inc, CheckKind, LedgerError, Phase, ReceiptView, RevisionView,
    SessionView, BlueprintView, MAX_TEXT,
};
use crate::text::bounded;
use crate::ledger::steps::{
    advance_step, already_reserved, amended_marks, changed_step, cursor_step, finish_step, incomplete_in, issue_step,
    every, mark_step, plan_step, record_step, repeat_of, reserve_step, reset_step, revise_step, same_plan,
    running_receipt,
};

verus! {

/// The consistency of a session record:
/// - it has a blueprint exactly when it is past the blueprint phase;
/// - while building, the cursor names one of the blueprint's layers;
/// - a recorded proof is always for the current generation;
/// - no receipt is from a later generation;
/// - no two receipts are runs of the same check on the same inputs;
/// - no component has two open issues.
pub open spec fn consistent(s: SessionView) -> bool {
    &&& (s.phase == Phase::Blueprint) == (s.blueprint is None)
    &&& s.phase == Phase::Build ==> s.cursor.layer is Some && s.blueprint->0.layers.contains(
        s.cursor.layer->0,
    )
    &&& s.proof_generation is Some ==> s.proof_generation == Some(s.generation)
    &&& forall|i: int| 0 <= i < s.receipts.len() ==> (#[trigger] s.receipts[i]).generation <= s.generation
    &&& forall|i: int, j: int|
        0 <= i < s.receipts.len() && 0 <= j < s.receipts.len() && i != j ==> !same_run(
            #[trigger] s.receipts[i],
            #[trigger] s.receipts[j],
        )
    &&& forall|i: int, j: int|
        0 <= i < s.issues.len() && 0 <= j < s.issues.len() && i != j && !(#[trigger] s.issues[i]).resolved
            && !(#[trigger] s.issues[j]).resolved ==> s.issues[i].component != s.issues[j].component
}

/// Two receipts are runs of the same check on the same inputs: same kind,
/// command and scope, and the same generation (unscoped) or input epoch
/// (scoped).
pub open spec fn same_run(a: ReceiptView, b: ReceiptView) -> bool {
    a.kind == b.kind && a.argv_sha256 == b.argv_sha256 && a.component == b.component && match a.component {
        None => a.generation == b.generation,
        Some(_) => a.epoch == b.epoch,
    }
}

/// A session with no plan is consistent.
pub proof fn law_fresh_consistent(id: Seq<char>, generation: u64, revision: u64)
    ensures
        consistent(crate::ledger::model::fresh_session(id, generation, revision)),
{
}

/// Planning keeps the session consistent.
pub proof fn law_plan_consistent(s: SessionView, b: BlueprintView)
    requires
        consistent(s),
    ensures
        plan_step(s, b) matches Ok(t) ==> consistent(t),
{
    if plan_step(s, b) is Ok {
        assert(validity_error(b) is None);
        assert(shape_ok(b));
        assert(b.layers.contains(b.layers[0]));
    }
}

/// Recording the next action keeps the session consistent.
pub proof fn law_cursor_consistent(s: SessionView, t: Seq<char>)
    requires
        consistent(s),
    ensures
        cursor_step(s, t) matches Ok(v) ==> consistent(v),
{
}

/// Marking keeps the session consistent.
pub proof fn law_mark_consistent(s: SessionView, c: Seq<char>, e: Seq<char>)
    requires
        consistent(s),
    ensures
        mark_step(s, c, e) matches Ok(v) ==> consistent(v),
{
    if mark_step(s, c, e) is Ok && s.phase == Phase::Repair {
        lemma_first_index(s.issues, open_issue_of(c));
    }
}

/// Advancing keeps the session consistent.
pub proof fn law_advance_consistent(s: SessionView)
    requires
        consistent(s),
    ensures
        advance_step(s) matches Ok(v) ==> consistent(v),
{
    if advance_step(s) is Ok && s.phase == Phase::Build {
        let b = s.blueprint->0;
        lemma_first_index(b.layers, is_text(s.cursor.layer->0));
        let n = first_index(b.layers, is_text(s.cursor.layer->0))->0;
        if n + 1 < b.layers.len() {
            assert(b.layers.contains(b.layers[n + 1]));
        }
    }
}

/// Opening an issue keeps the session consistent.
pub proof fn law_issue_consistent(s: SessionView, c: Seq<char>, r: Seq<char>)
    requires
        consistent(s),
    ensures
        issue_step(s, c, r) matches Ok(v) ==> consistent(v),
{
    if issue_step(s, c, r) is Ok {
        let v = issue_step(s, c, r)->Ok_0;
        assert forall|i: int, j: int|
            0 <= i < v.issues.len() && 0 <= j < v.issues.len() && i != j && !(#[trigger] v.issues[i]).resolved
                && !(#[trigger] v.issues[j]).resolved implies v.issues[i].component != v.issues[j].component by {
            if i == s.issues.len() {
                assert(!open_for(s.issues[j], c));
            } else if j == s.issues.len() {
                assert(!open_for(s.issues[i], c));
            }
        }
    }
}

/// A declared change keeps the session consistent.
pub proof fn law_changed_consistent(s: SessionView, r: Seq<char>)
    requires
        consistent(s),
        s.generation < u64::MAX,
    ensures
        changed_step(s, r) matches Ok(v) ==> consistent(v),
{
}

/// Finishing keeps the session consistent.
pub proof fn law_finish_consistent(s: SessionView)
    requires
        consistent(s),
    ensures
        finish_step(s) matches Ok(v) ==> consistent(v),
{
}

/// Resetting yields a consistent session.
pub proof fn law_reset_consistent(s: SessionView, r: Seq<char>)
    requires
        s.generation < u64::MAX,
    ensures
        reset_step(s, r) matches Ok(v) ==> consistent(v),
{
}

/// Revising keeps the session consistent.
pub proof fn law_revise_consistent(s: SessionView, q: RevisionView)
    requires
        consistent(s),
        s.generation < u64::MAX,
    ensures
        revise_step(s, q) matches Ok(v) ==> consistent(v),
{
    if revise_step(s, q) is Ok && s.blueprint is Some {
        let nb = q.blueprint;
        let marks = amended_marks(s.marks, s.blueprint->0, nb, q.invalidate);
        lemma_first_index(nb.layers, incomplete_in(nb.components, marks));
        if first_index(nb.layers, incomplete_in(nb.components, marks)) is Some {
            let i = first_index(nb.layers, incomplete_in(nb.components, marks))->0;
            assert(nb.layers.contains(nb.layers[i]));
        }
    }
}

/// Reserving a check keeps the session consistent.
pub proof fn law_reserve_consistent(
    s: SessionView,
    kind: CheckKind,
    label: Seq<char>,
    hash: Seq<char>,
    component: Option<Seq<char>>,
)
    requires
        consistent(s),
    ensures
        reserve_step(s, kind, label, hash, component) matches Ok(v) ==> consistent(v),
{
    if reserve_step(s, kind, label, hash, component) is Ok {
        let v = reserve_step(s, kind, label, hash, component)->Ok_0;
        let n = s.receipts.len() as int;
        assert forall|i: int, j: int|
            0 <= i < v.receipts.len() && 0 <= j < v.receipts.len() && i != j implies !same_run(
                #[trigger] v.receipts[i],
                #[trigger] v.receipts[j],
            ) by {
            if i == n {
                assert(v.receipts[j] == s.receipts[j]);
                assert(!repeat_of(s, kind, hash, component)(s.receipts[j]));
            } else if j == n {
                assert(v.receipts[i] == s.receipts[i]);
                assert(!repeat_of(s, kind, hash, component)(s.receipts[i]));
            } else {
                assert(v.receipts[i] == s.receipts[i]);
                assert(v.receipts[j] == s.receipts[j]);
            }
        }
    }
}

/// Recording a check result keeps the session consistent.
pub proof fn law_record_consistent(
    s: SessionView,
    g: u64,
    kind: CheckKind,
    hash: Seq<char>,
    component: Option<Seq<char>>,
    ok: bool,
    code: i32,
)
    requires
        consistent(s),
    ensures
        record_step(s, g, kind, hash, component, ok, code) matches Ok(v) ==> consistent(v),
{
    if record_step(s, g, kind, hash, component, ok, code) is Ok {
        lemma_first_index(s.receipts, running_receipt(g, kind, hash, component));
        let v = record_step(s, g, kind, hash, component, ok, code)->Ok_0;
        assert forall|i: int| 0 <= i < v.receipts.len() implies (#[trigger] v.receipts[i]).generation <= v.generation by {
            assert(v.receipts[i].generation == s.receipts[i].generation);
        }
        assert forall|i: int, j: int|
            0 <= i < v.receipts.len() && 0 <= j < v.receipts.len() && i != j implies !same_run(
                #[trigger] v.receipts[i],
                #[trigger] v.receipts[j],
            ) by {
            assert(same_run(v.receipts[i], v.receipts[j]) == same_run(s.receipts[i], s.receipts[j]));
        }
    }
}

/// An existing blueprint is never replaced by `plan`.
pub proof fn law_plan_never_replaces(s: SessionView, b: BlueprintView)
    requires
        s.blueprint is Some,
    ensures
        plan_step(s, b) is Err,
{
}

/// `advance` out of a build layer only happens when every component of that
/// layer carries evidence.
pub proof fn law_advance_needs_complete_layer(s: SessionView)
    requires
        s.phase == Phase::Build,
        advance_step(s) is Ok,
    ensures
        forall|i: int|
            0 <= i < s.blueprint->0.components.len() ==> marked(
                s.marks,
                s.cursor.layer->0,
                #[trigger] s.blueprint->0.components[i],
            ),
{
}

/// `advance` out of repair happens exactly when the session is planned and
/// every issue is resolved, and it goes to proof with everything else kept
/// but the next action.
pub proof fn law_repair_needs_resolved_issues(s: SessionView)
    requires
        s.phase == Phase::Repair,
    ensures
        advance_step(s) is Ok <==> s.blueprint is Some && forall|i: int|
            0 <= i < s.issues.len() ==> (#[trigger] s.issues[i]).resolved,
        advance_step(s) matches Ok(v) ==> {
            &&& v.phase == Phase::Proof
            &&& v.issues == s.issues
            &&& v.marks == s.marks
            &&& v.generation == s.generation
            &&& v.blueprint == s.blueprint
            &&& v.cursor.layer == s.cursor.layer
            &&& v.cursor.incomplete == s.cursor.incomplete
        },
{
}

/// `advance` from a build layer of the plan whose components all carry
/// evidence succeeds.
pub proof fn law_complete_layer_advances(s: SessionView, n: int)
    requires
        s.phase == Phase::Build,
        s.blueprint is Some,
        0 <= n < s.blueprint->0.layers.len(),
        s.cursor.layer == Some(s.blueprint->0.layers[n]),
        forall|i: int|
            0 <= i < s.blueprint->0.components.len() ==> marked(
                s.marks,
                s.blueprint->0.layers[n],
                #[trigger] s.blueprint->0.components[i],
            ),
    ensures
        advance_step(s) is Ok,
{
    let b = s.blueprint->0;
    crate::ledger::model::lemma_first_index(b.layers, is_text(b.layers[n]));
    assert(is_text(b.layers[n])(b.layers[n]));
}

/// `advance` is refused outside build and repair.
pub proof fn law_advance_only_from_build_or_repair(s: SessionView)
    requires
        advance_step(s) is Ok,
    ensures
        s.phase == Phase::Build || s.phase == Phase::Repair,
        s.blueprint is Some,
{
}

/// `finish` only happens in proof with a proof at the current generation.
pub proof fn law_finish_needs_current_proof(s: SessionView)
    requires
        finish_step(s) is Ok,
    ensures
        s.phase == Phase::Proof,
        s.proof_generation == Some(s.generation),
{
}

/// A declared change voids the proof: right after it, `finish` is refused.
pub proof fn law_change_voids_proof(s: SessionView, r: Seq<char>)
    requires
        changed_step(s, r) is Ok,
        s.generation < u64::MAX,
    ensures
        changed_step(s, r)->Ok_0.proof_generation is None,
        changed_step(s, r)->Ok_0.generation == s.generation + 1,
        finish_step(changed_step(s, r)->Ok_0) is Err,
{
}

/// Opening an issue enters repair and voids the proof.
pub proof fn law_issue_voids_proof(s: SessionView, c: Seq<char>, r: Seq<char>)
    requires
        issue_step(s, c, r) is Ok,
    ensures
        issue_step(s, c, r)->Ok_0.phase == Phase::Repair,
        issue_step(s, c, r)->Ok_0.proof_generation is None,
{
}

/// The same check (kind, command and scope) cannot be reserved twice on the
/// same inputs: unscoped at one generation, scoped at one input epoch of its
/// component.
pub proof fn law_no_repeated_check(
    s: SessionView,
    kind: CheckKind,
    label: Seq<char>,
    label2: Seq<char>,
    hash: Seq<char>,
    component: Option<Seq<char>>,
)
    requires
        reserve_step(s, kind, label, hash, component) is Ok,
    ensures
        reserve_step(reserve_step(s, kind, label, hash, component)->Ok_0, kind, label2, hash, component)
            == Err::<SessionView, LedgerError>(LedgerError::CheckAlreadyReserved),
{
    let t = reserve_step(s, kind, label, hash, component)->Ok_0;
    assert(repeat_of(t, kind, hash, component)(t.receipts[s.receipts.len() as int]));
}

/// A check is reserved exactly when the session is planned; a whole check
/// names no component and a scoped check names one of the plan's; the
/// phase suits the kind (smoke in build, whole in proof, narrow in repair
/// with an unresolved issue); and no earlier receipt is of the same kind,
/// command and scope on unchanged inputs (the same generation when
/// unscoped, the component's current input epoch when scoped).
pub proof fn law_reserve_accepted_exactly(
    s: SessionView,
    kind: CheckKind,
    label: Seq<char>,
    hash: Seq<char>,
    component: Option<Seq<char>>,
)
    ensures
        reserve_step(s, kind, label, hash, component) is Ok <==> {
            &&& s.blueprint is Some
            &&& !(kind == CheckKind::Whole && component is Some)
            &&& (component matches Some(c) ==> s.blueprint->0.components.contains(c))
            &&& (kind == CheckKind::Smoke ==> s.phase == Phase::Build)
            &&& (kind == CheckKind::Whole ==> s.phase == Phase::Proof)
            &&& (kind == CheckKind::Narrow ==> s.phase == Phase::Repair && exists|i: int|
                0 <= i < s.issues.len() && !(#[trigger] s.issues[i]).resolved)
            &&& forall|i: int|
                0 <= i < s.receipts.len() ==> !{
                    let r = #[trigger] s.receipts[i];
                    &&& r.kind == kind
                    &&& r.argv_sha256 == hash
                    &&& r.component == component
                    &&& match component {
                        None => r.generation == s.generation,
                        Some(c) => r.epoch == crate::ledger::scope::epoch_of(s.input_epochs, c),
                    }
                }
        },
{
    if already_reserved(s, kind, hash, component) {
        let i = choose|i: int| 0 <= i < s.receipts.len() && repeat_of(s, kind, hash, component)(#[trigger] s.receipts[i]);
        assert(repeat_of(s, kind, hash, component)(s.receipts[i]));
    } else {
        assert forall|i: int| 0 <= i < s.receipts.len() implies !{
            let r = #[trigger] s.receipts[i];
            &&& r.kind == kind
            &&& r.argv_sha256 == hash
            &&& r.component == component
            &&& match component {
                None => r.generation == s.generation,
                Some(c) => r.epoch == crate::ledger::scope::epoch_of(s.input_epochs, c),
            }
        } by {
            assert(!repeat_of(s, kind, hash, component)(s.receipts[i]));
        }
    }
}

/// A whole check reserved at an earlier generation cannot record a proof.
pub proof fn law_stale_result_never_proves(
    s: SessionView,
    g: u64,
    hash: Seq<char>,
    ok: bool,
    code: i32,
)
    requires
        g != s.generation,
        record_step(s, g, CheckKind::Whole, hash, None, ok, code) is Ok,
    ensures
        record_step(s, g, CheckKind::Whole, hash, None, ok, code)->Ok_0.proof_generation is None,
{
}

/// A revision written against another revision is refused.
pub proof fn law_stale_revision_refused(s: SessionView, q: RevisionView)
    requires
        s.revision != q.expected_revision,
    ensures
        revise_step(s, q) is Err,
{
}

/// An identical blueprint with nothing to invalidate changes nothing.
pub proof fn law_identical_revision_is_noop(s: SessionView, q: RevisionView)
    requires
        blueprint_error(q.blueprint) is None,
        s.revision == q.expected_revision,
        s.blueprint is Some,
        same_plan(s.blueprint->0, q.blueprint),
        q.invalidate.len() == 0,
    ensures
        revise_step(s, q) == Ok::<SessionView, LedgerError>(s),
{
}

/// Recording the cursor's own next action again changes nothing.
pub proof fn law_same_cursor_is_noop(s: SessionView)
    requires
        s.blueprint is Some,
        bounded(s.cursor.next, MAX_TEXT as nat),
    ensures
        cursor_step(s, s.cursor.next) == Ok::<SessionView, LedgerError>(s),
{
    assert(cursor_step(s, s.cursor.next)->Ok_0 =~= s);
}

/// The first plan of a session is its first revision.
pub proof fn law_first_plan_is_revision_one(s: SessionView, b: BlueprintView)
    requires
        plan_step(s, b) is Ok,
    ensures
        plan_step(s, b)->Ok_0.revision == 1,
        plan_step(s, b)->Ok_0.phase == Phase::Build,
        plan_step(s, b)->Ok_0.cursor.layer == Some(b.layers[0]),
{
}

/// `advance` from a build layer goes to the very next layer of the plan,
/// with every component still to do, and from the last layer to proof: no
/// layer is skipped.
pub proof fn law_advance_visits_layers_in_order(s: SessionView, n: int)
    requires
        s.phase == Phase::Build,
        advance_step(s) is Ok,
        s.blueprint is Some,
        0 <= n < s.blueprint->0.layers.len(),
        s.cursor.layer == Some(s.blueprint->0.layers[n]),
        forall|j: int| 0 <= j < n ==> s.blueprint->0.layers[j] != s.blueprint->0.layers[n],
    ensures
        n + 1 < s.blueprint->0.layers.len() ==> advance_step(s)->Ok_0.phase == Phase::Build
            && advance_step(s)->Ok_0.cursor.layer == Some(s.blueprint->0.layers[n + 1])
            && advance_step(s)->Ok_0.cursor.incomplete == s.blueprint->0.components,
        n + 1 == s.blueprint->0.layers.len() ==> advance_step(s)->Ok_0.phase == Phase::Proof,
        advance_step(s)->Ok_0.marks == s.marks,
        advance_step(s)->Ok_0.generation == s.generation,
{
    let b = s.blueprint->0;
    crate::ledger::model::lemma_first_index_at(b.layers, is_text(b.layers[n]), n);
}

/// An issue can only be opened from proof or repair.
pub proof fn law_issue_only_from_proof_or_repair(s: SessionView, c: Seq<char>, r: Seq<char>)
    requires
        issue_step(s, c, r) is Ok,
    ensures
        s.phase == Phase::Proof || s.phase == Phase::Repair,
        issue_step(s, c, r)->Ok_0.phase == Phase::Repair,
        issue_step(s, c, r)->Ok_0.issues == s.issues.push(
            crate::ledger::model::IssueView { component: c, reason: r, resolved: false },
        ),
{
}

/// `issue` succeeds exactly when its reason is bounded, the session is
/// planned, the component is one of the plan's, the session is in proof
/// or repair, and the component has no unresolved issue yet; it then voids
/// the proof and keeps the marks, the cursor and the generation.
pub proof fn law_issue_accepted_exactly(s: SessionView, c: Seq<char>, r: Seq<char>)
    ensures
        issue_step(s, c, r) is Ok <==> {
            &&& bounded(r, MAX_TEXT as nat)
            &&& s.blueprint is Some
            &&& s.blueprint->0.components.contains(c)
            &&& (s.phase == Phase::Proof || s.phase == Phase::Repair)
            &&& forall|i: int| 0 <= i < s.issues.len() ==> !((#[trigger] s.issues[i]).component == c
                && !s.issues[i].resolved)
        },
        issue_step(s, c, r) matches Ok(v) ==> {
            &&& v.proof_generation is None
            &&& v.marks == s.marks
            &&& v.cursor == s.cursor
            &&& v.generation == s.generation
            &&& v.blueprint == s.blueprint
        },
        s.phase != Phase::Proof && s.phase != Phase::Repair ==> issue_step(s, c, r) is Err,
{
    if s.blueprint is Some && s.blueprint->0.components.contains(c) && bounded(r, MAX_TEXT as nat) && (s.phase == Phase::Proof || s.phase == Phase::Repair) {
        if crate::ledger::model::has_open_issue_for(s.issues, c) {
            let i = choose|i: int| 0 <= i < s.issues.len() && open_for(#[trigger] s.issues[i], c);
            assert(s.issues[i].component == c && !s.issues[i].resolved);
        } else {
            assert forall|i: int| 0 <= i < s.issues.len() implies !((#[trigger] s.issues[i]).component == c
                && !s.issues[i].resolved) by {
                assert(!open_for(s.issues[i], c));
            }
        }
    }
}

/// `plan` on a session without a blueprint takes a valid blueprint and
/// starts its build at the first layer with every component to do and the
/// blueprint's next action; an invalid blueprint, or an existing one, is
/// refused.
pub proof fn law_plan_starts_first_layer(s: SessionView, b: BlueprintView)
    ensures
        blueprint_error(b) is Some ==> plan_step(s, b) is Err,
        s.blueprint is Some ==> plan_step(s, b) is Err,
        plan_step(s, b) is Ok <==> blueprint_error(b) is None && s.blueprint is None,
        plan_step(s, b) matches Ok(v) ==> {
            &&& v.blueprint == Some(b)
            &&& v.phase == Phase::Build
            &&& v.cursor.layer == Some(b.layers[0])
            &&& v.cursor.incomplete == b.components
            &&& v.cursor.next == b.next
            &&& v.generation == s.generation
            &&& v.marks == s.marks
            &&& v.receipts == s.receipts
        },
{
}

/// `cursor` records the next action and changes nothing else.
pub proof fn law_cursor_sets_next(s: SessionView, t: Seq<char>)
    ensures
        cursor_step(s, t) is Ok <==> bounded(t, MAX_TEXT as nat) && s.blueprint is Some,
        cursor_step(s, t) matches Ok(v) ==> v.cursor.next == t && v.cursor.layer == s.cursor.layer
            && v.cursor.incomplete == s.cursor.incomplete && v.phase == s.phase && v.marks == s.marks
            && v.generation == s.generation && v.proof_generation == s.proof_generation,
{
}

/// `mark` in build records the evidence for the component in the current
/// layer, takes the component off the layer's to-do list, and leaves every
/// other layer's evidence alone; marks are only taken in build or repair.
pub proof fn law_mark_records_evidence(s: SessionView, c: Seq<char>, e: Seq<char>, l2: Seq<char>)
    requires
        mark_step(s, c, e) is Ok,
    ensures
        s.phase == Phase::Build || s.phase == Phase::Repair,
        s.blueprint->0.components.contains(c),
        bounded(e, crate::ledger::model::MAX_EVIDENCE as nat),
        s.phase == Phase::Build ==> {
            let v = mark_step(s, c, e)->Ok_0;
            let l = s.cursor.layer->0;
            &&& marked(v.marks, l, c) && v.marks[l][c] == e
            &&& !v.cursor.incomplete.contains(c)
            &&& v.phase == Phase::Build
            &&& (l2 != l ==> marked(v.marks, l2, c) == marked(s.marks, l2, c))
            &&& v.issues == s.issues
        },
{
    if s.phase == Phase::Build {
        let v = mark_step(s, c, e)->Ok_0;
        let b = s.blueprint->0;
        let l = s.cursor.layer->0;
        lemma_unmarked_excludes(b.components, layer_marks(s.marks, l).insert(c, e), c);
    }
}

/// The unmarked ids are exactly the ids without evidence.
proof fn lemma_unmarked_members(ids: Seq<Seq<char>>, m: Map<Seq<char>, Seq<char>>, x: Seq<char>)
    ensures
        crate::ledger::model::unmarked(ids, m).contains(x) <==> ids.contains(x) && !m.contains_key(x),
    decreases ids.len(),
{
    let r = crate::ledger::model::unmarked(ids, m);
    if ids.len() == 0 {
        assert(!r.contains(x));
        assert(!ids.contains(x));
    } else {
        let d = ids.drop_last();
        lemma_unmarked_members(d, m, x);
        let u = crate::ledger::model::unmarked(d, m);
        assert(ids =~= d.push(ids.last()));
        assert(ids.contains(x) <==> d.contains(x) || ids.last() == x) by {
            if ids.contains(x) {
                let j = choose|j: int| 0 <= j < ids.len() && ids[j] == x;
                if j < ids.len() - 1 {
                    assert(d[j] == x);
                }
            }
            if d.contains(x) {
                let j = choose|j: int| 0 <= j < d.len() && d[j] == x;
                assert(ids[j] == x);
            }
            if ids.last() == x {
                assert(ids[ids.len() - 1] == x);
            }
        }
        if m.contains_key(ids.last()) {
            assert(r == u);
        } else {
            assert(r == u.push(ids.last()));
            assert(r.contains(x) <==> u.contains(x) || ids.last() == x) by {
                if r.contains(x) {
                    let j = choose|j: int| 0 <= j < r.len() && r[j] == x;
                    if j < u.len() {
                        assert(u[j] == x);
                    }
                }
                if u.contains(x) {
                    let j = choose|j: int| 0 <= j < u.len() && u[j] == x;
                    assert(r[j] == x);
                }
                if ids.last() == x {
                    assert(r[u.len() as int] == x);
                }
            }
        }
    }
}

/// `mark` in build leaves every other component's evidence in the layer as
/// it was, and the layer's to-do list is then exactly the plan's components
/// without evidence in it.
pub proof fn law_mark_updates_todo(s: SessionView, c: Seq<char>, e: Seq<char>, x: Seq<char>)
    requires
        mark_step(s, c, e) is Ok,
        s.phase == Phase::Build,
    ensures
        ({
            let v = mark_step(s, c, e)->Ok_0;
            let l = s.cursor.layer->0;
            &&& x != c ==> marked(v.marks, l, x) == marked(s.marks, l, x) && (marked(s.marks, l, x)
                ==> v.marks[l][x] == s.marks[l][x])
            &&& v.cursor.incomplete.contains(x) <==> s.blueprint->0.components.contains(x) && !marked(
                v.marks,
                l,
                x,
            )
        }),
{
    let b = s.blueprint->0;
    let l = s.cursor.layer->0;
    lemma_unmarked_members(b.components, layer_marks(s.marks, l).insert(c, e), x);
}

/// A component with evidence is not among the unmarked.
proof fn lemma_unmarked_excludes(ids: Seq<Seq<char>>, m: Map<Seq<char>, Seq<char>>, c: Seq<char>)
    requires
        m.contains_key(c),
    ensures
        !crate::ledger::model::unmarked(ids, m).contains(c),
    decreases ids.len(),
{
    if ids.len() > 0 {
        lemma_unmarked_excludes(ids.drop_last(), m, c);
        let u = crate::ledger::model::unmarked(ids.drop_last(), m);
        if !m.contains_key(ids.last()) {
            assert(crate::ledger::model::unmarked(ids, m) == u.push(ids.last()));
            assert forall|j: int| 0 <= j < u.push(ids.last()).len() implies u.push(ids.last())[j] != c by {
                if j < u.len() {
                    assert(u.push(ids.last())[j] == u[j]);
                }
            }
        }
    }
}

/// `mark` in repair resolves the component's first open issue and nothing
/// else among the issues.
pub proof fn law_repair_mark_resolves_issue(s: SessionView, c: Seq<char>, e: Seq<char>)
    requires
        mark_step(s, c, e) is Ok,
        s.phase == Phase::Repair,
    ensures
        exists|k: int|
            0 <= k < s.issues.len() && open_for(#[trigger] s.issues[k], c) && mark_step(s, c, e)->Ok_0.issues
                == s.issues.update(k, crate::ledger::model::IssueView { resolved: true, ..s.issues[k] }),
        mark_step(s, c, e)->Ok_0.phase == Phase::Repair,
{
    lemma_first_index(s.issues, open_issue_of(c));
    let k = first_index(s.issues, open_issue_of(c))->0;
    assert(open_for(s.issues[k], c));
}

/// `changed` moves to the next generation, clears the proof, keeps the
/// evidence, and reopens a complete project at proof.
pub proof fn law_changed_moves_generation(s: SessionView, r: Seq<char>)
    requires
        changed_step(s, r) is Ok,
        s.generation < u64::MAX,
    ensures
        s.blueprint is Some,
        changed_step(s, r)->Ok_0.generation == s.generation + 1,
        changed_step(s, r)->Ok_0.proof_generation is None,
        changed_step(s, r)->Ok_0.marks == s.marks,
        changed_step(s, r)->Ok_0.receipts == s.receipts,
        s.phase == Phase::Complete ==> changed_step(s, r)->Ok_0.phase == Phase::Proof,
        s.phase != Phase::Complete ==> changed_step(s, r)->Ok_0.phase == s.phase,
{
}

/// `changed` is accepted exactly for a bounded reason in a planned session,
/// and keeps the plan, the issues, the revision and the session's id.
pub proof fn law_changed_accepted_exactly(s: SessionView, r: Seq<char>)
    ensures
        changed_step(s, r) is Ok <==> bounded(r, MAX_TEXT as nat) && s.blueprint is Some,
        changed_step(s, r) matches Ok(v) ==> {
            &&& v.blueprint == s.blueprint
            &&& v.issues == s.issues
            &&& v.revision == s.revision
            &&& v.session_id == s.session_id
        },
{
}

/// `reset` is accepted exactly for a bounded reason; the session keeps its
/// id and moves on one revision (held at `u64::MAX`).
pub proof fn law_reset_accepted_exactly(s: SessionView, r: Seq<char>)
    ensures
        reset_step(s, r) is Ok <==> bounded(r, MAX_TEXT as nat),
        reset_step(s, r) matches Ok(v) ==> {
            &&& v.session_id == s.session_id
            &&& v.revision == saturating_inc(s.revision)
            &&& v.proof_generation is None
            &&& v.cursor.layer is None
        },
{
}

/// Recording a result succeeds exactly when a receipt of that kind,
/// command and scope is running from generation `g`; it settles the first
/// such receipt with the outcome and exit code, and no other receipt.
pub proof fn law_record_settles_first_running(
    s: SessionView,
    g: u64,
    kind: CheckKind,
    hash: Seq<char>,
    component: Option<Seq<char>>,
    ok: bool,
    code: i32,
)
    ensures
        record_step(s, g, kind, hash, component, ok, code) is Ok <==> exists|k: int|
            0 <= k < s.receipts.len() && running_receipt(g, kind, hash, component)(#[trigger] s.receipts[k]),
        record_step(s, g, kind, hash, component, ok, code) matches Ok(v) ==> exists|k: int|
            0 <= k < s.receipts.len() && {
                let x = #[trigger] s.receipts[k];
                &&& x.status == crate::ledger::model::ReceiptStatus::Running
                &&& x.generation == g
                &&& x.kind == kind
                &&& x.argv_sha256 == hash
                &&& x.component == component
                &&& (forall|j: int| 0 <= j < k ==> !running_receipt(g, kind, hash, component)(#[trigger] s.receipts[j]))
                &&& v.receipts == s.receipts.update(
                    k,
                    ReceiptView {
                        status: if ok {
                            crate::ledger::model::ReceiptStatus::Success
                        } else {
                            crate::ledger::model::ReceiptStatus::Failed
                        },
                        exit_code: Some(code),
                        ..x
                    },
                )
            },
{
    lemma_first_index(s.receipts, running_receipt(g, kind, hash, component));
    match first_index(s.receipts, running_receipt(g, kind, hash, component)) {
        Some(k) => {
            assert(running_receipt(g, kind, hash, component)(s.receipts[k]));
        },
        None => {
            if exists|k: int|
                0 <= k < s.receipts.len() && running_receipt(g, kind, hash, component)(#[trigger] s.receipts[k]) {
                let k = choose|k: int|
                    0 <= k < s.receipts.len() && running_receipt(g, kind, hash, component)(#[trigger] s.receipts[k]);
                assert(!running_receipt(g, kind, hash, component)(s.receipts[k]));
            }
        },
    }
}

/// A declared change moves every component's input epoch on by one (held
/// at `u64::MAX`), so no scoped receipt blocks a rerun after it.
pub proof fn law_changed_moves_every_epoch(s: SessionView, r: Seq<char>, c: Seq<char>)
    requires
        changed_step(s, r) is Ok,
        s.blueprint->0.components.contains(c),
        forall|i: int, j: int|
            0 <= i < j < s.blueprint->0.components.len() ==> s.blueprint->0.components[i]
                != s.blueprint->0.components[j],
    ensures
        crate::ledger::scope::epoch_of(changed_step(s, r)->Ok_0.input_epochs, c) == saturating_inc(
            crate::ledger::scope::epoch_of(s.input_epochs, c),
        ),
{
    crate::ledger::scope::lemma_advance_epoch_of(s.input_epochs, s.blueprint->0.components, every(), c);
}

/// `finish` completes exactly a project in proof whose proof is at the
/// current generation.
pub proof fn law_finish_completes(s: SessionView)
    ensures
        finish_step(s) is Ok <==> s.phase == Phase::Proof && s.proof_generation == Some(s.generation),
        finish_step(s) matches Ok(v) ==> v.phase == Phase::Complete && v.marks == s.marks
            && v.generation == s.generation,
{
}

/// A check is reserved only in its phase: smoke in build, whole in proof,
/// narrow in repair with an open issue; the new receipt is running at the
/// current generation.
pub proof fn law_checks_run_in_their_phase(
    s: SessionView,
    kind: CheckKind,
    label: Seq<char>,
    hash: Seq<char>,
    component: Option<Seq<char>>,
)
    requires
        reserve_step(s, kind, label, hash, component) is Ok,
    ensures
        s.blueprint is Some,
        kind == CheckKind::Smoke ==> s.phase == Phase::Build,
        kind == CheckKind::Whole ==> s.phase == Phase::Proof && component is None,
        kind == CheckKind::Narrow ==> s.phase == Phase::Repair && has_open_issue(s.issues),
        ({
            let v = reserve_step(s, kind, label, hash, component)->Ok_0;
            &&& v.receipts.len() == s.receipts.len() + 1
            &&& v.receipts.last().status == crate::ledger::model::ReceiptStatus::Running
            &&& v.receipts.last().generation == s.generation
            &&& v.receipts.last().kind == kind
            &&& v.receipts.last().argv_sha256 == hash
            &&& v.receipts.last().label == label
            &&& v.receipts.last().component == component
            &&& v.receipts.drop_last() == s.receipts
            &&& v.generation == s.generation
            &&& v.proof_generation == s.proof_generation
        }),
{
    let v = reserve_step(s, kind, label, hash, component)->Ok_0;
    assert(v.receipts.drop_last() =~= s.receipts);
}

/// Recording a result settles one running receipt; only a passing whole
/// check reserved at the current generation proves the project, a failing
/// whole check clears the proof, and other checks leave it.
pub proof fn law_record_sets_proof(
    s: SessionView,
    g: u64,
    kind: CheckKind,
    hash: Seq<char>,
    component: Option<Seq<char>>,
    ok: bool,
    code: i32,
)
    requires
        record_step(s, g, kind, hash, component, ok, code) is Ok,
    ensures
        ({
            let v = record_step(s, g, kind, hash, component, ok, code)->Ok_0;
            &&& kind == CheckKind::Whole ==> (v.proof_generation == if ok && g == s.generation {
                Some(g)
            } else {
                None
            })
            &&& kind != CheckKind::Whole ==> v.proof_generation == s.proof_generation
            &&& v.receipts.len() == s.receipts.len()
            &&& exists|k: int|
                0 <= k < s.receipts.len() && (#[trigger] s.receipts[k]).status
                    == crate::ledger::model::ReceiptStatus::Running && s.receipts[k].generation == g
                    && s.receipts[k].kind == kind && s.receipts[k].argv_sha256 == hash && v.receipts[k].status
                    == (if ok {
                    crate::ledger::model::ReceiptStatus::Success
                } else {
                    crate::ledger::model::ReceiptStatus::Failed
                }) && v.receipts[k].exit_code == Some(code) && forall|j: int|
                    0 <= j < s.receipts.len() && j != k ==> v.receipts[j] == s.receipts[j]
        }),
{
    lemma_first_index(s.receipts, running_receipt(g, kind, hash, component));
}

/// `reset` starts a new project: no plan, no marks, issues or receipts, and
/// the next generation.
pub proof fn law_reset_starts_over(s: SessionView, r: Seq<char>)
    requires
        reset_step(s, r) is Ok,
        s.generation < u64::MAX,
    ensures
        reset_step(s, r)->Ok_0.blueprint is None,
        reset_step(s, r)->Ok_0.phase == Phase::Blueprint,
        reset_step(s, r)->Ok_0.generation == s.generation + 1,
        reset_step(s, r)->Ok_0.receipts.len() == 0,
        reset_step(s, r)->Ok_0.issues.len() == 0,
        reset_step(s, r)->Ok_0.marks.is_empty(),
{
}

} // verus!
