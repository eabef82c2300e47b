//! What an amendment of the plan (`revise`) does to the recorded work: a new
//! next action alone keeps everything; any other change keeps the evidence
//! it does not reach, clears what it does reach (an invalidated component or
//! one whose prerequisites changed, and everything depending on it), drops
//! removed layers and components, and resumes at the earliest incomplete
//! layer, at repair while an issue is open, or at proof.
use vstd::prelude::*;
use crate::ledger::blueprint::{shape_ok, validity_error};
use crate::ledger::model::{
    first_index, has_open_issue, is_text, layer_marks, lemma_first_index, lemma_first_index_at, marked,
    saturating_inc, unmarked, BlueprintView, CheckKind, InvalidationView, MarksView, Phase, RevisionView,
    SessionView,
};
use crate::ledger::scope::{advance_epochs, clear_affected, epoch_of};
use crate::ledger::steps::{
    amended_marks, clear_range, dependents_of, edge_affected, in_range, incomplete_in, invalidated,
    next_only, repeat_of, reserve_step, retained_marks, revise_step, same_plan, touched,
};

verus! {

/// The revision changes more than the next action: it is neither the
/// identical plan nor a new next action alone, or it invalidates something.
pub open spec fn amends(s: SessionView, q: RevisionView) -> bool {
    !(s.blueprint is Some && next_only(s.blueprint->0, q.blueprint) && q.invalidate.len() == 0)
}

/// Clearing only removes evidence: what survives was there before,
/// unchanged, and the only layers it adds are layers of the plan.
proof fn lemma_clear_within(m: MarksView, layers: Seq<Seq<char>>, i: int, comps: Seq<Seq<char>>, hit: spec_fn(Seq<char>) -> bool)
    requires
        0 <= i,
    ensures
        forall|l: Seq<char>, c: Seq<char>|
            #[trigger] marked(clear_affected(m, layers, i, comps, hit), l, c) ==> marked(m, l, c)
                && clear_affected(m, layers, i, comps, hit)[l][c] == m[l][c],
        forall|l: Seq<char>|
            #[trigger] clear_affected(m, layers, i, comps, hit).contains_key(l) ==> m.contains_key(l)
                || layers.contains(l),
    decreases comps.len(),
{
    if comps.len() > 0 {
        lemma_clear_within(m, layers, i, comps.drop_last(), hit);
        let m1 = clear_affected(m, layers, i, comps.drop_last(), hit);
        if hit(comps.last()) {
            let n = layers.len() as int;
            let m2 = clear_range(m1, layers, i, n, comps.last());
            assert forall|l: Seq<char>, c: Seq<char>| #[trigger] marked(m2, l, c) implies marked(m1, l, c)
                && m2[l][c] == m1[l][c] by {
                if in_range(layers, i, n, l) {
                    assert(m2[l] == layer_marks(m1, l).remove(comps.last()));
                }
            }
            assert forall|l: Seq<char>| #[trigger] m2.contains_key(l) implies m1.contains_key(l) || layers.contains(l) by {
                if in_range(layers, i, n, l) {
                    let k = choose|k: int| i <= k < n && layers[k] == l;
                    assert(layers[k] == l);
                }
            }
        }
    }
}

/// Clearing keeps the evidence of a component it does not select.
proof fn lemma_clear_keeps(
    m: MarksView,
    layers: Seq<Seq<char>>,
    i: int,
    comps: Seq<Seq<char>>,
    hit: spec_fn(Seq<char>) -> bool,
    l: Seq<char>,
    c: Seq<char>,
)
    requires
        marked(m, l, c),
        !hit(c),
    ensures
        marked(clear_affected(m, layers, i, comps, hit), l, c),
        clear_affected(m, layers, i, comps, hit)[l][c] == m[l][c],
    decreases comps.len(),
{
    if comps.len() > 0 {
        lemma_clear_keeps(m, layers, i, comps.drop_last(), hit, l, c);
        let m1 = clear_affected(m, layers, i, comps.drop_last(), hit);
        if hit(comps.last()) {
            let n = layers.len() as int;
            let m2 = clear_range(m1, layers, i, n, comps.last());
            assert(comps.last() != c);
            assert(m2.contains_key(l));
            if in_range(layers, i, n, l) {
                assert(m2[l] == layer_marks(m1, l).remove(comps.last()));
            }
        }
    }
}

/// Clearing removes a selected component of `comps` from each layer of
/// `layers[i..]`.
proof fn lemma_clear_hits(
    m: MarksView,
    layers: Seq<Seq<char>>,
    i: int,
    comps: Seq<Seq<char>>,
    hit: spec_fn(Seq<char>) -> bool,
    x: Seq<char>,
    j: int,
)
    requires
        0 <= i <= j < layers.len(),
        comps.contains(x),
        hit(x),
    ensures
        !marked(clear_affected(m, layers, i, comps, hit), layers[j], x),
    decreases comps.len(),
{
    lemma_clear_within(m, layers, i, comps, hit);
    let n = layers.len() as int;
    if comps.last() == x {
        let m1 = clear_affected(m, layers, i, comps.drop_last(), hit);
        let m2 = clear_range(m1, layers, i, n, x);
        assert(in_range(layers, i, n, layers[j]));
        assert(m2[layers[j]] == layer_marks(m1, layers[j]).remove(x));
    } else {
        let k = choose|k: int| 0 <= k < comps.len() && comps[k] == x;
        assert(comps.drop_last()[k] == x);
        lemma_clear_hits(m, layers, i, comps.drop_last(), hit, x, j);
        let m1 = clear_affected(m, layers, i, comps.drop_last(), hit);
        lemma_clear_within(m1, layers, i, seq![comps.last()], hit);
        if hit(comps.last()) {
            let m2 = clear_range(m1, layers, i, n, comps.last());
            if marked(m2, layers[j], x) {
                assert(in_range(layers, i, n, layers[j]));
                assert(m2[layers[j]] == layer_marks(m1, layers[j]).remove(comps.last()));
            }
        }
    }
}

/// Invalidations only remove evidence.
proof fn lemma_invalidated_within(m: MarksView, prior: BlueprintView, nb: BlueprintView, inv: Seq<InvalidationView>)
    ensures
        forall|l: Seq<char>, c: Seq<char>|
            #[trigger] marked(invalidated(m, prior, nb, inv), l, c) ==> marked(m, l, c) && invalidated(
                m,
                prior,
                nb,
                inv,
            )[l][c] == m[l][c],
        forall|l: Seq<char>|
            #[trigger] invalidated(m, prior, nb, inv).contains_key(l) ==> m.contains_key(l) || nb.layers.contains(l),
    decreases inv.len(),
{
    if inv.len() > 0 {
        lemma_invalidated_within(m, prior, nb, inv.drop_last());
        let m1 = invalidated(m, prior, nb, inv.drop_last());
        match first_index(nb.layers, is_text(inv.last().1)) {
            None => {},
            Some(i) => {
                lemma_first_index(nb.layers, is_text(inv.last().1));
                lemma_clear_within(m1, nb.layers, i, nb.components, dependents_of(prior, nb, inv.last().0));
            },
        }
    }
}

/// Invalidations keep the evidence of a component none of them reaches.
proof fn lemma_invalidated_keeps(
    m: MarksView,
    prior: BlueprintView,
    nb: BlueprintView,
    inv: Seq<InvalidationView>,
    l: Seq<char>,
    c: Seq<char>,
)
    requires
        marked(m, l, c),
        forall|k: int| 0 <= k < inv.len() ==> !#[trigger] dependents_of(prior, nb, inv[k].0)(c),
    ensures
        marked(invalidated(m, prior, nb, inv), l, c),
        invalidated(m, prior, nb, inv)[l][c] == m[l][c],
    decreases inv.len(),
{
    if inv.len() > 0 {
        lemma_invalidated_keeps(m, prior, nb, inv.drop_last(), l, c);
        let m1 = invalidated(m, prior, nb, inv.drop_last());
        assert(!dependents_of(prior, nb, inv[inv.len() - 1].0)(c));
        match first_index(nb.layers, is_text(inv.last().1)) {
            None => {},
            Some(i) => {
                lemma_clear_keeps(m1, nb.layers, i, nb.components, dependents_of(prior, nb, inv.last().0), l, c);
            },
        }
    }
}

/// Invalidations applied in two runs give what one run gives.
proof fn lemma_invalidated_split(
    m: MarksView,
    prior: BlueprintView,
    nb: BlueprintView,
    a: Seq<InvalidationView>,
    b: Seq<InvalidationView>,
)
    ensures
        invalidated(m, prior, nb, a + b) == invalidated(invalidated(m, prior, nb, a), prior, nb, b),
    decreases b.len(),
{
    if b.len() == 0 {
        assert(a + b =~= a);
    } else {
        lemma_invalidated_split(m, prior, nb, a, b.drop_last());
        assert((a + b).drop_last() =~= a + b.drop_last());
        assert((a + b).last() == b.last());
    }
}

/// Every amended mark was recorded before, unchanged; only the plan's
/// layers remain.
proof fn lemma_amended_within(m: MarksView, prior: BlueprintView, nb: BlueprintView, inv: Seq<InvalidationView>)
    ensures
        forall|l: Seq<char>, c: Seq<char>|
            #[trigger] marked(amended_marks(m, prior, nb, inv), l, c) ==> marked(retained_marks(m, nb), l, c)
                && amended_marks(m, prior, nb, inv)[l][c] == m[l][c],
        forall|l: Seq<char>|
            #[trigger] amended_marks(m, prior, nb, inv).contains_key(l) ==> nb.layers.contains(l),
{
    let kept = retained_marks(m, nb);
    let edged = clear_affected(kept, nb.layers, 0, nb.components, edge_affected(prior, nb));
    lemma_clear_within(kept, nb.layers, 0, nb.components, edge_affected(prior, nb));
    lemma_invalidated_within(edged, prior, nb, inv);
    assert forall|l: Seq<char>| #[trigger] kept.contains_key(l) implies nb.layers.contains(l) by {
        assert(nb.layers.to_set().contains(l));
    }
}

/// Moving epochs on leaves the epoch of a component it does not select.
proof fn lemma_advance_keeps(e: Map<Seq<char>, u64>, comps: Seq<Seq<char>>, hit: spec_fn(Seq<char>) -> bool, c: Seq<char>)
    requires
        !hit(c),
    ensures
        epoch_of(advance_epochs(e, comps, hit), c) == epoch_of(e, c),
    decreases comps.len(),
{
    if comps.len() > 0 {
        lemma_advance_keeps(e, comps.drop_last(), hit, c);
    }
}

/// A new next action alone keeps the phase, the marks, the generation and
/// the proof: the plan takes the new next action, which the cursor shows.
pub proof fn law_next_action_revision_keeps_phase_and_proof(s: SessionView, q: RevisionView)
    requires
        revise_step(s, q) is Ok,
        !amends(s, q),
    ensures
        ({
            let v = revise_step(s, q)->Ok_0;
            &&& v.phase == s.phase
            &&& v.proof_generation == s.proof_generation
            &&& v.generation == s.generation
            &&& v.marks == s.marks
            &&& v.issues == s.issues
            &&& v.receipts == s.receipts
            &&& same_plan(s.blueprint->0, q.blueprint) ==> v == s
            &&& !same_plan(s.blueprint->0, q.blueprint) ==> v.blueprint == Some(q.blueprint)
                && v.cursor.next == q.blueprint.next && v.revision == saturating_inc(s.revision)
        }),
{
}

/// Any other amendment moves to the next generation and revision, clears
/// the proof and resumes at the plan's earliest layer that has a component
/// without evidence; when every layer is complete it stays in repair while
/// an issue is open (keeping the issues), else goes to proof.
pub proof fn law_amendment_resumes_at_earliest_incomplete_layer(s: SessionView, q: RevisionView)
    requires
        revise_step(s, q) is Ok,
        amends(s, q),
        s.generation < u64::MAX,
    ensures
        ({
            let v = revise_step(s, q)->Ok_0;
            let nb = q.blueprint;
            &&& v.blueprint == Some(nb)
            &&& v.generation == s.generation + 1
            &&& v.revision == saturating_inc(s.revision)
            &&& v.proof_generation is None
            &&& v.issues == s.issues
            &&& v.phase == Phase::Build ==> exists|i: int|
                0 <= i < nb.layers.len() && v.cursor.layer == Some(nb.layers[i]) && (exists|c: int|
                    0 <= c < nb.components.len() && !marked(v.marks, nb.layers[i], #[trigger] nb.components[c]))
                    && forall|j: int, c: int|
                    0 <= j < i && 0 <= c < nb.components.len() ==> marked(
                        v.marks,
                        #[trigger] nb.layers[j],
                        #[trigger] nb.components[c],
                    )
            &&& v.phase != Phase::Build ==> (v.phase == if has_open_issue(s.issues) {
                Phase::Repair
            } else {
                Phase::Proof
            }) && forall|j: int, c: int|
                0 <= j < nb.layers.len() && 0 <= c < nb.components.len() ==> marked(
                    v.marks,
                    #[trigger] nb.layers[j],
                    #[trigger] nb.components[c],
                )
        }),
{
    let nb = q.blueprint;
    let prior = s.blueprint->0;
    let marks = amended_marks(s.marks, prior, nb, q.invalidate);
    let p = incomplete_in(nb.components, marks);
    lemma_first_index(nb.layers, p);
    let v = revise_step(s, q)->Ok_0;
    assert(v.marks == marks);
    match first_index(nb.layers, p) {
        Some(i) => {
            assert(p(nb.layers[i]));
            assert forall|j: int, c: int|
                0 <= j < i && 0 <= c < nb.components.len() implies marked(
                    v.marks,
                    #[trigger] nb.layers[j],
                    #[trigger] nb.components[c],
                ) by {
                assert(!p(nb.layers[j]));
            }
        },
        None => {
            assert forall|j: int, c: int|
                0 <= j < nb.layers.len() && 0 <= c < nb.components.len() implies marked(
                    v.marks,
                    #[trigger] nb.layers[j],
                    #[trigger] nb.components[c],
                ) by {
                assert(!p(nb.layers[j]));
            }
        },
    }
}

/// An amendment keeps no layer and no component that the new plan removed.
pub proof fn law_amendment_drops_removed(s: SessionView, q: RevisionView, l: Seq<char>, c: Seq<char>)
    requires
        revise_step(s, q) is Ok,
        amends(s, q),
    ensures
        !q.blueprint.layers.contains(l) ==> !revise_step(s, q)->Ok_0.marks.contains_key(l),
        !q.blueprint.components.contains(c) ==> !marked(revise_step(s, q)->Ok_0.marks, l, c),
{
    let nb = q.blueprint;
    lemma_amended_within(s.marks, s.blueprint->0, nb, q.invalidate);
    if !nb.components.contains(c) && marked(revise_step(s, q)->Ok_0.marks, l, c) {
        assert(marked(retained_marks(s.marks, nb), l, c));
        assert(!nb.components.to_set().contains(c));
    }
}

/// An amendment keeps the evidence of every surviving layer and component
/// that it does not reach: no invalidation names it or a component it
/// depends on, and neither its prerequisites nor those of anything it
/// depends on changed.
pub proof fn law_amendment_keeps_unreached_marks(s: SessionView, q: RevisionView, l: Seq<char>, c: Seq<char>)
    requires
        revise_step(s, q) is Ok,
        marked(s.marks, l, c),
        q.blueprint.layers.contains(l),
        q.blueprint.components.contains(c),
        !touched(s.blueprint->0, q.blueprint, q.invalidate)(c),
    ensures
        marked(revise_step(s, q)->Ok_0.marks, l, c),
        revise_step(s, q)->Ok_0.marks[l][c] == s.marks[l][c],
{
    let nb = q.blueprint;
    let prior = s.blueprint->0;
    if !(same_plan(prior, nb) && q.invalidate.len() == 0) && !(next_only(prior, nb) && q.invalidate.len() == 0) {
        let kept = retained_marks(s.marks, nb);
        assert(nb.layers.to_set().contains(l));
        assert(nb.components.to_set().contains(c));
        assert(marked(kept, l, c));
        lemma_clear_keeps(kept, nb.layers, 0, nb.components, edge_affected(prior, nb), l, c);
        let edged = clear_affected(kept, nb.layers, 0, nb.components, edge_affected(prior, nb));
        assert forall|k: int| 0 <= k < q.invalidate.len() implies !#[trigger] dependents_of(prior, nb, q.invalidate[k].0)(c) by {
            if dependents_of(prior, nb, q.invalidate[k].0)(c) {
                assert(touched(prior, nb, q.invalidate)(c));
            }
        }
        lemma_invalidated_keeps(edged, prior, nb, q.invalidate, l, c);
    }
}

/// An invalidation clears its component, and every component of the new
/// plan that depends on it directly or through others (by the old or the new
/// prerequisites), from the layer it names and every later layer.
pub proof fn law_invalidation_clears_dependents_from_its_layer(
    s: SessionView,
    q: RevisionView,
    k: int,
    x: Seq<char>,
    i: int,
    j: int,
)
    requires
        revise_step(s, q) is Ok,
        0 <= k < q.invalidate.len(),
        0 <= i <= j < q.blueprint.layers.len(),
        q.blueprint.layers[i] == q.invalidate[k].1,
        q.blueprint.components.contains(x),
        dependents_of(s.blueprint->0, q.blueprint, q.invalidate[k].0)(x),
    ensures
        !marked(revise_step(s, q)->Ok_0.marks, q.blueprint.layers[j], x),
{
    let nb = q.blueprint;
    let prior = s.blueprint->0;
    let layers = nb.layers;
    let inv = q.invalidate;
    let v = inv[k];
    let kept = retained_marks(s.marks, nb);
    let edged = clear_affected(kept, layers, 0, nb.components, edge_affected(prior, nb));
    let front = inv.take(k + 1);
    let back = inv.skip(k + 1);
    assert(inv =~= front + back);
    lemma_invalidated_split(edged, prior, nb, front, back);
    assert(front.drop_last() =~= inv.take(k));
    assert(front.last() == v);
    let before = invalidated(edged, prior, nb, inv.take(k));
    lemma_first_index(layers, is_text(v.1));
    assert(is_text(v.1)(layers[i]));
    let i0 = first_index(layers, is_text(v.1))->0;
    assert(i0 <= i);
    let mid = invalidated(edged, prior, nb, front);
    assert(mid == clear_affected(before, layers, i0, nb.components, dependents_of(prior, nb, v.0)));
    lemma_clear_hits(before, layers, i0, nb.components, dependents_of(prior, nb, v.0), x, j);
    lemma_invalidated_within(mid, prior, nb, back);
    assert(revise_step(s, q)->Ok_0.marks == invalidated(mid, prior, nb, back));
}

/// A component of the new plan whose prerequisites changed (by the old and
/// new dependency tables), or that depends on one that did, loses its
/// evidence in every layer: it starts again from scaffold.
pub proof fn law_changed_edges_invalidate_from_scaffold(s: SessionView, q: RevisionView, x: Seq<char>, j: int)
    requires
        revise_step(s, q) is Ok,
        q.blueprint.components.contains(x),
        edge_affected(s.blueprint->0, q.blueprint)(x),
        0 <= j < q.blueprint.layers.len(),
    ensures
        !marked(revise_step(s, q)->Ok_0.marks, q.blueprint.layers[j], x),
{
    let nb = q.blueprint;
    let prior = s.blueprint->0;
    let kept = retained_marks(s.marks, nb);
    let edged = clear_affected(kept, nb.layers, 0, nb.components, edge_affected(prior, nb));
    if !(next_only(prior, nb) && q.invalidate.len() == 0) {
        lemma_clear_hits(kept, nb.layers, 0, nb.components, edge_affected(prior, nb), x, j);
        lemma_invalidated_within(edged, prior, nb, q.invalidate);
    } else {
        // Identical prerequisites change nothing.
        assert(edge_affected(prior, nb)(x));
        assert(false) by {
            lemma_no_edge_change(prior, nb, x);
        }
    }
}

/// With the same prerequisites and components, no component is reached by
/// a prerequisite change.
proof fn lemma_no_edge_change(prior: BlueprintView, nb: BlueprintView, x: Seq<char>)
    requires
        prior.dependencies == nb.dependencies,
    ensures
        !edge_affected(prior, nb)(x),
{
    lemma_no_seed_no_reach(prior, nb, x, nb.components.len());
}

proof fn lemma_no_seed_no_reach(prior: BlueprintView, nb: BlueprintView, x: Seq<char>, k: nat)
    requires
        prior.dependencies == nb.dependencies,
    ensures
        !crate::ledger::scope::reaches(
            prior.dependencies,
            nb.dependencies,
            nb.components,
            crate::ledger::steps::edges_changed(prior, nb),
            x,
            k,
        ),
    decreases k,
{
    assert(!crate::ledger::steps::edges_changed(prior, nb)(x));
    if k > 0 {
        lemma_no_seed_no_reach(prior, nb, x, (k - 1) as nat);
        assert forall|y: Seq<char>|
            crate::ledger::scope::depends_either(prior.dependencies, nb.dependencies, x, y) implies !#[trigger] crate::ledger::scope::reaches(
            prior.dependencies,
            nb.dependencies,
            nb.components,
            crate::ledger::steps::edges_changed(prior, nb),
            y,
            (k - 1) as nat,
        ) by {
            lemma_no_seed_no_reach(prior, nb, y, (k - 1) as nat);
        }
        crate::ledger::scope::lemma_reaches_none(
            prior.dependencies,
            nb.dependencies,
            nb.components,
            crate::ledger::steps::edges_changed(prior, nb),
            x,
            k,
        );
    }
}

/// A component added by an amendment, with no evidence anywhere yet, starts
/// at the scaffold layer.
pub proof fn law_added_component_starts_at_scaffold(s: SessionView, q: RevisionView, c: Seq<char>)
    requires
        revise_step(s, q) is Ok,
        amends(s, q),
        q.blueprint.components.contains(c),
        forall|l: Seq<char>| !marked(s.marks, l, c),
    ensures
        revise_step(s, q)->Ok_0.phase == Phase::Build,
        revise_step(s, q)->Ok_0.cursor.layer == Some("scaffold"@),
        revise_step(s, q)->Ok_0.cursor.incomplete.contains(c),
{
    let nb = q.blueprint;
    let prior = s.blueprint->0;
    let marks = amended_marks(s.marks, prior, nb, q.invalidate);
    lemma_amended_within(s.marks, prior, nb, q.invalidate);
    assert(validity_error(nb) is None);
    assert(shape_ok(nb));
    let l0 = nb.layers[0];
    assert(!marked(marks, l0, c)) by {
        if marked(marks, l0, c) {
            assert(marked(retained_marks(s.marks, nb), l0, c));
            assert(marked(s.marks, l0, c));
        }
    }
    let ci = choose|ci: int| 0 <= ci < nb.components.len() && nb.components[ci] == c;
    assert(!marked(marks, l0, nb.components[ci]));
    assert(incomplete_in(nb.components, marks)(nb.layers[0]));
    lemma_first_index_at(nb.layers, incomplete_in(nb.components, marks), 0);
    assert(!layer_marks(marks, l0).contains_key(c));
    lemma_unmarked_has(nb.components, layer_marks(marks, l0), c);
}

/// A component listed and unmarked stays among the unmarked.
proof fn lemma_unmarked_has(ids: Seq<Seq<char>>, m: Map<Seq<char>, Seq<char>>, c: Seq<char>)
    requires
        ids.contains(c),
        !m.contains_key(c),
    ensures
        unmarked(ids, m).contains(c),
    decreases ids.len(),
{
    if ids.last() == c {
        assert(unmarked(ids, m).last() == c);
    } else {
        let k = choose|k: int| 0 <= k < ids.len() && ids[k] == c;
        assert(ids.drop_last()[k] == c);
        lemma_unmarked_has(ids.drop_last(), m, c);
        let u = unmarked(ids.drop_last(), m);
        let j = choose|j: int| 0 <= j < u.len() && u[j] == c;
        if !m.contains_key(ids.last()) {
            assert(unmarked(ids, m)[j] == c);
        }
    }
}

/// An amendment moves on the input epoch of each component it reaches, by
/// one (held at `u64::MAX`), and of no other component.
pub proof fn law_amendment_moves_reached_epochs(s: SessionView, q: RevisionView, c: Seq<char>)
    requires
        revise_step(s, q) is Ok,
        amends(s, q),
        q.blueprint.components.contains(c),
    ensures
        epoch_of(revise_step(s, q)->Ok_0.input_epochs, c) == if touched(s.blueprint->0, q.blueprint, q.invalidate)(c) {
            saturating_inc(epoch_of(s.input_epochs, c))
        } else {
            epoch_of(s.input_epochs, c)
        },
{
    let nb = q.blueprint;
    crate::ledger::blueprint::law_valid_blueprint_shape(nb);
    crate::ledger::scope::lemma_advance_epoch_of(s.input_epochs, nb.components, touched(s.blueprint->0, nb, q.invalidate), c);
}

/// A scoped check already run on a component stays blocked after an
/// amendment that does not reach that component, though the generation
/// moves on: its input epoch is unchanged.
pub proof fn law_scoped_receipt_survives_unrelated_amendment(
    s: SessionView,
    q: RevisionView,
    kind: CheckKind,
    label: Seq<char>,
    hash: Seq<char>,
    c: Seq<char>,
    i: int,
)
    requires
        revise_step(s, q) is Ok,
        0 <= i < s.receipts.len(),
        repeat_of(s, kind, hash, Some(c))(s.receipts[i]),
        !touched(s.blueprint->0, q.blueprint, q.invalidate)(c),
    ensures
        epoch_of(revise_step(s, q)->Ok_0.input_epochs, c) == epoch_of(s.input_epochs, c),
        reserve_step(revise_step(s, q)->Ok_0, kind, label, hash, Some(c)) is Err,
{
    let v = revise_step(s, q)->Ok_0;
    lemma_advance_keeps(s.input_epochs, q.blueprint.components, touched(s.blueprint->0, q.blueprint, q.invalidate), c);
    assert(v.receipts == s.receipts);
    assert(repeat_of(v, kind, hash, Some(c))(v.receipts[i]));
}

} // verus!
