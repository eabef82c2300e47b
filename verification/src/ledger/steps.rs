//! The ledger's transitions as mathematics: for each request, the session it
//! leads to, or the error that refuses it (leaving the session unchanged).
use vstd::prelude::*;
use crate::ledger::blueprint::blueprint_error;
use crate::ledger::model::{
    first_index, fresh_session, has_open_issue, has_open_issue_for, is_text, layer_marks, open_issue_of, marked,
    saturating_inc, unmarked, BlueprintView, CheckKind, CursorView, Field, IssueView,
    InvalidationView, LedgerError, MarksView, Phase, RevisionView, ReceiptStatus, ReceiptView, SessionView, MAX_EVIDENCE,
    MAX_TEXT,
};
use crate::ledger::scope::{advance_epochs, affected, clear_affected, epoch_of, prereqs};
use crate::text::bounded;

verus! {

/// `plan`: a valid blueprint starts the build at its first layer, unless a
/// blueprint already exists.
pub open spec fn plan_step(s: SessionView, b: BlueprintView) -> Result<SessionView, LedgerError> {
    match blueprint_error(b) {
        Some(e) => Err(e),
        None => if s.blueprint is Some {
            Err(LedgerError::BlueprintExists)
        } else {
            Ok(
                SessionView {
                    phase: Phase::Build,
                    cursor: CursorView {
                        layer: Some(b.layers[0]),
                        incomplete: b.components,
                        next: b.next,
                    },
                    blueprint: Some(b),
                    revision: 1,
                    ..s
                },
            )
        },
    }
}

/// `cursor`: records the exact next action.
pub open spec fn cursor_step(s: SessionView, t: Seq<char>) -> Result<SessionView, LedgerError> {
    if !bounded(t, MAX_TEXT as nat) {
        Err(LedgerError::Bound { field: Field::Cursor, max: MAX_TEXT })
    } else if s.blueprint is None {
        Err(LedgerError::NoBlueprint)
    } else {
        Ok(SessionView { cursor: CursorView { next: t, ..s.cursor }, ..s })
    }
}

/// The name of the pseudo-layer that holds repair evidence.
pub open spec fn repair_layer() -> Seq<char> {
    "repair"@
}

/// `mark`: in build, completes a component in the current layer; in repair,
/// resolves the component's first open issue.
pub open spec fn mark_step(s: SessionView, c: Seq<char>, e: Seq<char>) -> Result<
    SessionView,
    LedgerError,
> {
    if !bounded(e, MAX_EVIDENCE as nat) {
        Err(LedgerError::Bound { field: Field::Evidence, max: MAX_EVIDENCE })
    } else {
        match s.blueprint {
            None => Err(LedgerError::NoBlueprint),
            Some(b) => if !b.components.contains(c) {
                Err(LedgerError::UnknownComponent)
            } else if s.phase == Phase::Build {
                match s.cursor.layer {
                    None => Err(LedgerError::LayerMissing),
                    Some(l) => {
                        let m = layer_marks(s.marks, l).insert(c, e);
                        Ok(
                            SessionView {
                                marks: s.marks.insert(l, m),
                                cursor: CursorView {
                                    incomplete: unmarked(b.components, m),
                                    ..s.cursor
                                },
                                ..s
                            },
                        )
                    },
                }
            } else if s.phase == Phase::Repair {
                match first_index(s.issues, open_issue_of(c)) {
                    None => Err(LedgerError::NoOpenIssueForComponent),
                    Some(k) => Ok(
                        SessionView {
                            issues: s.issues.update(k, IssueView { resolved: true, ..s.issues[k] }),
                            marks: s.marks.insert(
                                repair_layer(),
                                layer_marks(s.marks, repair_layer()).insert(c, e),
                            ),
                            ..s
                        },
                    ),
                }
            } else {
                Err(LedgerError::MarkPhase)
            },
        }
    }
}

/// `advance`: in repair, back to proof once every issue is resolved; in build,
/// to the next layer (or to proof after the last) once every component of
/// the current layer is marked.
pub open spec fn advance_step(s: SessionView) -> Result<SessionView, LedgerError> {
    match s.blueprint {
        None => Err(LedgerError::NoBlueprint),
        Some(b) => if s.phase == Phase::Repair {
            if has_open_issue(s.issues) {
                Err(LedgerError::OpenIssuesRemain)
            } else {
                Ok(
                    SessionView {
                        phase: Phase::Proof,
                        cursor: CursorView {
                            next: "run a whole check for final confirmation"@,
                            ..s.cursor
                        },
                        ..s
                    },
                )
            }
        } else if s.phase != Phase::Build {
            Err(LedgerError::AdvancePhase)
        } else {
            match s.cursor.layer {
                None => Err(LedgerError::LayerMissing),
                Some(l) => if exists|i: int|
                    0 <= i < b.components.len() && !marked(s.marks, l, #[trigger] b.components[i]) {
                    Err(LedgerError::IncompleteLayer)
                } else {
                    match first_index(b.layers, is_text(l)) {
                        None => Err(LedgerError::InvalidLayer),
                        Some(n) => if n + 1 == b.layers.len() {
                            Ok(
                                SessionView {
                                    phase: Phase::Proof,
                                    cursor: CursorView {
                                        layer: None,
                                        incomplete: Seq::empty(),
                                        next: "run a whole check"@,
                                    },
                                    ..s
                                },
                            )
                        } else {
                            Ok(
                                SessionView {
                                    cursor: CursorView {
                                        layer: Some(b.layers[n + 1]),
                                        incomplete: b.components,
                                        next: b.next,
                                    },
                                    ..s
                                },
                            )
                        },
                    }
                },
            }
        },
    }
}

/// `issue`: from proof or repair, opens a repair target for a component that
/// has none open, clears the proof and enters repair.
pub open spec fn issue_step(s: SessionView, c: Seq<char>, r: Seq<char>) -> Result<
    SessionView,
    LedgerError,
> {
    if !bounded(r, MAX_TEXT as nat) {
        Err(LedgerError::Bound { field: Field::Reason, max: MAX_TEXT })
    } else {
        match s.blueprint {
            None => Err(LedgerError::NoBlueprint),
            Some(b) => if !b.components.contains(c) {
                Err(LedgerError::UnknownComponent)
            } else if s.phase != Phase::Proof && s.phase != Phase::Repair {
                Err(LedgerError::IssuePhase)
            } else if has_open_issue_for(s.issues, c) {
                Err(LedgerError::IssueAlreadyOpen)
            } else {
                Ok(
                    SessionView {
                        issues: s.issues.push(IssueView { component: c, reason: r, resolved: false }),
                        phase: Phase::Repair,
                        proof_generation: None,
                        ..s
                    },
                )
            },
        }
    }
}

/// `changed`: a declared input change moves to the next generation, moves on
/// every component's input epoch (an unscoped change may touch any of them)
/// and clears the proof; a complete project returns to proof.
pub open spec fn changed_step(s: SessionView, r: Seq<char>) -> Result<SessionView, LedgerError> {
    if !bounded(r, MAX_TEXT as nat) {
        Err(LedgerError::Bound { field: Field::Reason, max: MAX_TEXT })
    } else if s.blueprint is None {
        Err(LedgerError::NoBlueprint)
    } else if s.phase == Phase::Complete {
        Ok(
            SessionView {
                generation: (s.generation + 1) as u64,
                proof_generation: None,
                input_epochs: advance_epochs(s.input_epochs, s.blueprint->0.components, every()),
                phase: Phase::Proof,
                cursor: CursorView {
                    next: "run a whole check after the declared change"@,
                    ..s.cursor
                },
                ..s
            },
        )
    } else {
        Ok(
            SessionView {
                generation: (s.generation + 1) as u64,
                proof_generation: None,
                input_epochs: advance_epochs(s.input_epochs, s.blueprint->0.components, every()),
                ..s
            },
        )
    }
}

/// The test that holds of every component.
pub open spec fn every() -> spec_fn(Seq<char>) -> bool {
    |x: Seq<char>| true
}

/// `finish`: completes a project in proof whose proof is at the current generation.
pub open spec fn finish_step(s: SessionView) -> Result<SessionView, LedgerError> {
    if s.phase != Phase::Proof || s.proof_generation != Some(s.generation) {
        Err(LedgerError::FinishNotReady)
    } else {
        Ok(SessionView { phase: Phase::Complete, ..s })
    }
}

/// `reset`: starts over with no plan, one generation and one revision on.
pub open spec fn reset_step(s: SessionView, r: Seq<char>) -> Result<SessionView, LedgerError> {
    if !bounded(r, MAX_TEXT as nat) {
        Err(LedgerError::Bound { field: Field::ResetReason, max: MAX_TEXT })
    } else {
        Ok(fresh_session(s.session_id, (s.generation + 1) as u64, saturating_inc(s.revision)))
    }
}

/// Two blueprints say the same: objective, components, layers, next action
/// and dependencies.
pub open spec fn same_plan(a: BlueprintView, b: BlueprintView) -> bool {
    &&& a.objective == b.objective
    &&& a.components == b.components
    &&& a.layers == b.layers
    &&& a.next == b.next
    &&& a.dependencies == b.dependencies
}

/// The marks that survive a new blueprint: only its layers, and in each only
/// its components.
pub open spec fn retained_marks(m: MarksView, b: BlueprintView) -> MarksView {
    m.restrict(b.layers.to_set()).map_values(
        |x: Map<Seq<char>, Seq<char>>| x.restrict(b.components.to_set()),
    )
}

/// Layer `l` is one of `layers[i..j]`.
pub open spec fn in_range(layers: Seq<Seq<char>>, i: int, j: int, l: Seq<char>) -> bool {
    exists|k: int| i <= k < j && layers[k] == l
}

/// `m` with component `c` cleared from each layer of `layers[i..j]` (each of
/// those layers then holds an entry, possibly empty).
pub open spec fn clear_range(m: MarksView, layers: Seq<Seq<char>>, i: int, j: int, c: Seq<char>) -> MarksView {
    Map::new(
        |l: Seq<char>| m.contains_key(l) || in_range(layers, i, j, l),
        |l: Seq<char>|
            if in_range(layers, i, j, l) {
                layer_marks(m, l).remove(c)
            } else {
                m[l]
            },
    )
}

/// The test "is a component of the new plan whose prerequisites differ
/// from the ones the old plan gave it".
pub open spec fn edges_changed(prior: BlueprintView, nb: BlueprintView) -> spec_fn(Seq<char>) -> bool {
    |x: Seq<char>|
        nb.components.contains(x) && prereqs(prior.dependencies, x).to_set() != prereqs(
            nb.dependencies,
            x,
        ).to_set()
}

/// The test "is `c` or depends on it, directly or through others, by the old
/// or the new prerequisites".
pub open spec fn dependents_of(prior: BlueprintView, nb: BlueprintView, c: Seq<char>) -> spec_fn(Seq<char>) -> bool {
    affected(prior.dependencies, nb.dependencies, nb.components, is_text(c))
}

/// The test "has changed prerequisites or depends on a component that has".
pub open spec fn edge_affected(prior: BlueprintView, nb: BlueprintView) -> spec_fn(Seq<char>) -> bool {
    affected(prior.dependencies, nb.dependencies, nb.components, edges_changed(prior, nb))
}

/// One invalidation: clear its component and its dependents from its layer
/// onward, when the layer is one of the new plan's.
pub open spec fn apply_invalidation(m: MarksView, prior: BlueprintView, nb: BlueprintView, v: InvalidationView) -> MarksView {
    match first_index(nb.layers, is_text(v.1)) {
        None => m,
        Some(i) => clear_affected(m, nb.layers, i, nb.components, dependents_of(prior, nb, v.0)),
    }
}

/// The invalidations applied in order.
pub open spec fn invalidated(m: MarksView, prior: BlueprintView, nb: BlueprintView, inv: Seq<InvalidationView>) -> MarksView
    decreases inv.len(),
{
    if inv.len() == 0 {
        m
    } else {
        apply_invalidation(invalidated(m, prior, nb, inv.drop_last()), prior, nb, inv.last())
    }
}

/// The marks after an amendment: those of the surviving layers and
/// components, less every component whose prerequisites changed (and its
/// dependents) from the first layer on, less each invalidation.
pub open spec fn amended_marks(m: MarksView, prior: BlueprintView, nb: BlueprintView, inv: Seq<InvalidationView>) -> MarksView {
    invalidated(
        clear_affected(retained_marks(m, nb), nb.layers, 0, nb.components, edge_affected(prior, nb)),
        prior,
        nb,
        inv,
    )
}

/// The test "is a component that an amendment touches": its prerequisites
/// changed, an invalidation names it, or it depends on such a component.
pub open spec fn touched(prior: BlueprintView, nb: BlueprintView, inv: Seq<InvalidationView>) -> spec_fn(Seq<char>) -> bool {
    |x: Seq<char>|
        edge_affected(prior, nb)(x) || exists|k: int| 0 <= k < inv.len() && #[trigger] dependents_of(prior, nb, inv[k].0)(x)
}

/// Two plans differ at most in their next action.
pub open spec fn next_only(a: BlueprintView, b: BlueprintView) -> bool {
    &&& a.objective == b.objective
    &&& a.components == b.components
    &&& a.layers == b.layers
    &&& a.dependencies == b.dependencies
}

/// The test "layer `l` has a component of `comps` without evidence".
pub open spec fn incomplete_in(comps: Seq<Seq<char>>, m: MarksView) -> spec_fn(Seq<char>) -> bool {
    |l: Seq<char>| exists|i: int| 0 <= i < comps.len() && !marked(m, l, #[trigger] comps[i])
}

/// `revise`: a guarded amendment. A stale revision is refused; an identical
/// blueprint with nothing to invalidate changes nothing; a new next action
/// alone keeps the phase, the marks and the proof. Any other amendment
/// replaces the plan, keeps the surviving marks except those its changes
/// reach, moves those components' input epochs on, clears the proof and
/// resumes at the earliest incomplete layer, or, when every layer is
/// complete, at repair while an issue is open, else at proof.
pub open spec fn revise_step(s: SessionView, q: RevisionView) -> Result<SessionView, LedgerError> {
    let nb = q.blueprint;
    match blueprint_error(nb) {
        Some(e) => Err(e),
        None => if s.revision != q.expected_revision {
            Err(LedgerError::StaleRevision)
        } else {
            match s.blueprint {
                None => Err(LedgerError::NoBlueprint),
                Some(prior) => if same_plan(prior, nb) && q.invalidate.len() == 0 {
                    Ok(s)
                } else if !bounded(q.reason, MAX_TEXT as nat) {
                    Err(LedgerError::Bound { field: Field::Reason, max: MAX_TEXT })
                } else if next_only(prior, nb) && q.invalidate.len() == 0 {
                    Ok(
                        SessionView {
                            revision: saturating_inc(s.revision),
                            blueprint: Some(nb),
                            cursor: CursorView { next: nb.next, ..s.cursor },
                            ..s
                        },
                    )
                } else {
                    let marks = amended_marks(s.marks, prior, nb, q.invalidate);
                    let base = SessionView {
                        revision: saturating_inc(s.revision),
                        blueprint: Some(nb),
                        marks,
                        generation: (s.generation + 1) as u64,
                        proof_generation: None,
                        input_epochs: advance_epochs(s.input_epochs, nb.components, touched(prior, nb, q.invalidate)),
                        ..s
                    };
                    match first_index(nb.layers, incomplete_in(nb.components, marks)) {
                        Some(i) => Ok(
                            SessionView {
                                phase: Phase::Build,
                                cursor: CursorView {
                                    layer: Some(nb.layers[i]),
                                    incomplete: unmarked(nb.components, layer_marks(marks, nb.layers[i])),
                                    next: nb.next,
                                },
                                ..base
                            },
                        ),
                        None => if has_open_issue(s.issues) {
                            Ok(SessionView { phase: Phase::Repair, ..base })
                        } else {
                            Ok(
                                SessionView {
                                    phase: Phase::Proof,
                                    cursor: CursorView { next: "run a whole check"@, ..s.cursor },
                                    ..base
                                },
                            )
                        },
                    }
                },
            }
        },
    }
}

/// Why a check of this kind may not run in this phase, if it may not.
pub open spec fn kind_error(s: SessionView, kind: CheckKind) -> Option<LedgerError> {
    if kind == CheckKind::Smoke && s.phase != Phase::Build {
        Some(LedgerError::SmokePhase)
    } else if kind == CheckKind::Whole && s.phase != Phase::Proof {
        Some(LedgerError::WholePhase)
    } else if kind == CheckKind::Narrow && (s.phase != Phase::Repair || !has_open_issue(s.issues)) {
        Some(LedgerError::NarrowPhase)
    } else {
        None
    }
}

/// The input epoch a check of this scope is reserved at: the component's
/// epoch when scoped, 0 when not.
pub open spec fn scope_epoch(s: SessionView, component: Option<Seq<char>>) -> u64 {
    match component {
        Some(c) => epoch_of(s.input_epochs, c),
        None => 0,
    }
}

/// The test "is an earlier run of the same check whose inputs have not
/// changed since": same kind, command and scope, and, unscoped, at the
/// current generation, scoped, at the component's current input epoch.
pub open spec fn repeat_of(s: SessionView, kind: CheckKind, hash: Seq<char>, component: Option<Seq<char>>) -> spec_fn(
    ReceiptView,
) -> bool {
    |r: ReceiptView|
        r.kind == kind && r.argv_sha256 == hash && r.component == component && match component {
            None => r.generation == s.generation,
            Some(c) => r.epoch == epoch_of(s.input_epochs, c),
        }
}

/// Such an earlier run exists.
pub open spec fn already_reserved(s: SessionView, kind: CheckKind, hash: Seq<char>, component: Option<Seq<char>>) -> bool {
    exists|i: int| 0 <= i < s.receipts.len() && repeat_of(s, kind, hash, component)(#[trigger] s.receipts[i])
}

/// The first such earlier run, which a refused repeat reports.
pub open spec fn prior_receipt(s: SessionView, kind: CheckKind, hash: Seq<char>, component: Option<Seq<char>>) -> Option<
    ReceiptView,
> {
    match first_index(s.receipts, repeat_of(s, kind, hash, component)) {
        Some(i) => Some(s.receipts[i]),
        None => None,
    }
}

/// `check` (reservation): a check allowed in this phase, scoped (when it
/// names a component) to a component of the plan, and not already run on
/// unchanged inputs, gets a running receipt.
pub open spec fn reserve_step(
    s: SessionView,
    kind: CheckKind,
    label: Seq<char>,
    hash: Seq<char>,
    component: Option<Seq<char>>,
) -> Result<SessionView, LedgerError> {
    if s.blueprint is None {
        Err(LedgerError::NoBlueprint)
    } else if kind == CheckKind::Whole && component is Some {
        Err(LedgerError::WholeComponent)
    } else if component matches Some(c) && !s.blueprint->0.components.contains(c) {
        Err(LedgerError::UnknownComponent)
    } else {
        match kind_error(s, kind) {
            Some(e) => Err(e),
            None => if already_reserved(s, kind, hash, component) {
                Err(LedgerError::CheckAlreadyReserved)
            } else {
                Ok(
                    SessionView {
                        receipts: s.receipts.push(
                            ReceiptView {
                                kind,
                                label,
                                argv_sha256: hash,
                                generation: s.generation,
                                status: ReceiptStatus::Running,
                                exit_code: None,
                                component,
                                epoch: scope_epoch(s, component),
                            },
                        ),
                        ..s
                    },
                )
            },
        }
    }
}

/// The test "is the running receipt of this kind, command and scope,
/// reserved at generation `g`".
pub open spec fn running_receipt(g: u64, kind: CheckKind, hash: Seq<char>, component: Option<Seq<char>>) -> spec_fn(
    ReceiptView,
) -> bool {
    |r: ReceiptView|
        r.generation == g && r.kind == kind && r.argv_sha256 == hash && r.component == component
            && r.status == ReceiptStatus::Running
}

/// `check` (result): settles the running receipt; a whole check sets the
/// proof only when it passed and the generation has not moved since.
pub open spec fn record_step(
    s: SessionView,
    g: u64,
    kind: CheckKind,
    hash: Seq<char>,
    component: Option<Seq<char>>,
    ok: bool,
    code: i32,
) -> Result<SessionView, LedgerError> {
    match first_index(s.receipts, running_receipt(g, kind, hash, component)) {
        None => Err(LedgerError::ReceiptLost),
        Some(i) => Ok(
            SessionView {
                receipts: s.receipts.update(
                    i,
                    ReceiptView {
                        status: if ok {
                            ReceiptStatus::Success
                        } else {
                            ReceiptStatus::Failed
                        },
                        exit_code: Some(code),
                        ..s.receipts[i]
                    },
                ),
                proof_generation: if kind == CheckKind::Whole {
                    if ok && s.generation == g {
                        Some(g)
                    } else {
                        None
                    }
                } else {
                    s.proof_generation
                },
                ..s
            },
        ),
    }
}

} // verus!
