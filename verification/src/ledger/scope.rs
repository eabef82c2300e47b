//! What a change reaches: the components that depend, directly or through
//! others, on a changed component; clearing their marks; and their input
//! epochs, which scope a component's check receipts.
use vstd::prelude::*;
use crate::ledger::model::{is_text, saturating_inc, Blueprint, Invalidation, MarksView};
use crate::ledger::session::clear_from;
use crate::ledger::steps::{clear_range, dependents_of, edge_affected, edges_changed, touched};
use crate::table::{contains_id, Table};

verus! {

/// The prerequisites that a dependency table lists for `x`.
pub open spec fn prereqs(d: Map<Seq<char>, Seq<Seq<char>>>, x: Seq<char>) -> Seq<Seq<char>> {
    if d.contains_key(x) {
        d[x]
    } else {
        Seq::empty()
    }
}

/// `x` has prerequisite `y` in the old or the new dependency table.
pub open spec fn depends_either(
    before: Map<Seq<char>, Seq<Seq<char>>>,
    after: Map<Seq<char>, Seq<Seq<char>>>,
    x: Seq<char>,
    y: Seq<char>,
) -> bool {
    prereqs(before, x).contains(y) || prereqs(after, x).contains(y)
}

/// The seeds, and the components of `comps` that reach a seed through at
/// most `k` prerequisite steps of either table.
pub open spec fn reached(
    before: Map<Seq<char>, Seq<Seq<char>>>,
    after: Map<Seq<char>, Seq<Seq<char>>>,
    comps: Seq<Seq<char>>,
    seed: spec_fn(Seq<char>) -> bool,
    k: nat,
) -> Set<Seq<char>>
    decreases k,
{
    if k == 0 {
        Set::new(seed)
    } else {
        let t = reached(before, after, comps, seed, (k - 1) as nat);
        t.union(
            Set::new(
                |x: Seq<char>|
                    comps.contains(x) && exists|y: Seq<char>| depends_either(before, after, x, y) && #[trigger] t.contains(y),
            ),
        )
    }
}

/// `x` is a seed, or a component of `comps` that reaches a seed through at
/// most `k` prerequisite steps of either table.
pub open spec fn reaches(
    before: Map<Seq<char>, Seq<Seq<char>>>,
    after: Map<Seq<char>, Seq<Seq<char>>>,
    comps: Seq<Seq<char>>,
    seed: spec_fn(Seq<char>) -> bool,
    x: Seq<char>,
    k: nat,
) -> bool {
    reached(before, after, comps, seed, k).contains(x)
}

/// The test "is a seed or depends on one, directly or through others": a
/// dependency walk that reaches a seed needs no more steps than there are
/// components.
pub open spec fn affected(
    before: Map<Seq<char>, Seq<Seq<char>>>,
    after: Map<Seq<char>, Seq<Seq<char>>>,
    comps: Seq<Seq<char>>,
    seed: spec_fn(Seq<char>) -> bool,
) -> spec_fn(Seq<char>) -> bool {
    |x: Seq<char>| reaches(before, after, comps, seed, x, comps.len())
}

/// `m` with every component of `comps` that `hit` selects cleared from each
/// layer of `layers[i..]`, component by component.
pub open spec fn clear_affected(
    m: MarksView,
    layers: Seq<Seq<char>>,
    i: int,
    comps: Seq<Seq<char>>,
    hit: spec_fn(Seq<char>) -> bool,
) -> MarksView
    decreases comps.len(),
{
    if comps.len() == 0 {
        m
    } else {
        let m1 = clear_affected(m, layers, i, comps.drop_last(), hit);
        if hit(comps.last()) {
            clear_range(m1, layers, i, layers.len() as int, comps.last())
        } else {
            m1
        }
    }
}

/// A component's input epoch (0 until it first changes).
pub open spec fn epoch_of(e: Map<Seq<char>, u64>, c: Seq<char>) -> u64 {
    if e.contains_key(c) {
        e[c]
    } else {
        0
    }
}

/// The epochs with every component of `comps` that `hit` selects moved on.
pub open spec fn advance_epochs(
    e: Map<Seq<char>, u64>,
    comps: Seq<Seq<char>>,
    hit: spec_fn(Seq<char>) -> bool,
) -> Map<Seq<char>, u64>
    decreases comps.len(),
{
    if comps.len() == 0 {
        e
    } else {
        let e1 = advance_epochs(e, comps.drop_last(), hit);
        if hit(comps.last()) {
            e1.insert(comps.last(), saturating_inc(epoch_of(e1, comps.last())))
        } else {
            e1
        }
    }
}

/// A component that depends on one reached within `k - 1` steps is reached
/// within `k`.
pub proof fn lemma_reaches_step(
    before: Map<Seq<char>, Seq<Seq<char>>>,
    after: Map<Seq<char>, Seq<Seq<char>>>,
    comps: Seq<Seq<char>>,
    seed: spec_fn(Seq<char>) -> bool,
    x: Seq<char>,
    y: Seq<char>,
    k: nat,
)
    requires
        k > 0,
        comps.contains(x),
        depends_either(before, after, x, y),
        reaches(before, after, comps, seed, y, (k - 1) as nat),
    ensures
        reaches(before, after, comps, seed, x, k),
{
    let t = reached(before, after, comps, seed, (k - 1) as nat);
    assert(t.contains(y));
}

/// What is not reached within `k - 1` steps, and depends on nothing reached
/// within them, is not reached within `k`.
pub proof fn lemma_reaches_none(
    before: Map<Seq<char>, Seq<Seq<char>>>,
    after: Map<Seq<char>, Seq<Seq<char>>>,
    comps: Seq<Seq<char>>,
    seed: spec_fn(Seq<char>) -> bool,
    x: Seq<char>,
    k: nat,
)
    requires
        k > 0,
        !reaches(before, after, comps, seed, x, (k - 1) as nat),
        forall|y: Seq<char>| depends_either(before, after, x, y) ==> !#[trigger] reaches(before, after, comps, seed, y, (k - 1) as nat),
    ensures
        !reaches(before, after, comps, seed, x, k),
{
    let t = reached(before, after, comps, seed, (k - 1) as nat);
    assert forall|y: Seq<char>| depends_either(before, after, x, y) implies !#[trigger] t.contains(y) by {
        assert(!reaches(before, after, comps, seed, y, (k - 1) as nat));
    }
}

/// Moving epochs on leaves the epoch of a component not listed.
proof fn lemma_advance_unlisted(e: Map<Seq<char>, u64>, comps: Seq<Seq<char>>, hit: spec_fn(Seq<char>) -> bool, c: Seq<char>)
    requires
        !comps.contains(c),
    ensures
        epoch_of(advance_epochs(e, comps, hit), c) == epoch_of(e, c),
    decreases comps.len(),
{
    if comps.len() > 0 {
        assert(comps.drop_last().contains(c) ==> comps.contains(c)) by {
            if comps.drop_last().contains(c) {
                let k = choose|k: int| 0 <= k < comps.drop_last().len() && comps.drop_last()[k] == c;
                assert(comps[k] == c);
            }
        }
        assert(comps.last() != c) by {
            assert(comps[comps.len() - 1] == comps.last());
        }
        lemma_advance_unlisted(e, comps.drop_last(), hit, c);
    }
}

/// With each component listed once, moving epochs on moves a selected
/// component's epoch on by one (held at `u64::MAX`) and leaves an
/// unselected one alone.
pub proof fn lemma_advance_epoch_of(
    e: Map<Seq<char>, u64>,
    comps: Seq<Seq<char>>,
    hit: spec_fn(Seq<char>) -> bool,
    c: Seq<char>,
)
    requires
        forall|i: int, j: int| 0 <= i < j < comps.len() ==> comps[i] != comps[j],
        comps.contains(c),
    ensures
        epoch_of(advance_epochs(e, comps, hit), c) == if hit(c) {
            saturating_inc(epoch_of(e, c))
        } else {
            epoch_of(e, c)
        },
    decreases comps.len(),
{
    let d = comps.drop_last();
    if comps.last() == c {
        assert(!d.contains(c)) by {
            if d.contains(c) {
                let k = choose|k: int| 0 <= k < d.len() && d[k] == c;
                assert(comps[k] == comps[comps.len() - 1]);
            }
        }
        lemma_advance_unlisted(e, d, hit, c);
    } else {
        let k = choose|k: int| 0 <= k < comps.len() && comps[k] == c;
        assert(k < comps.len() - 1);
        assert(d[k] == c);
        assert forall|i: int, j: int| 0 <= i < j < d.len() implies d[i] != d[j] by {
            assert(d[i] == comps[i] && d[j] == comps[j]);
        }
        lemma_advance_epoch_of(e, d, hit, c);
    }
}

/// Outside `comps`, only a seed reaches a seed.
proof fn lemma_reaches_outside(
    before: Map<Seq<char>, Seq<Seq<char>>>,
    after: Map<Seq<char>, Seq<Seq<char>>>,
    comps: Seq<Seq<char>>,
    seed: spec_fn(Seq<char>) -> bool,
    y: Seq<char>,
    k: nat,
)
    requires
        !comps.contains(y),
    ensures
        reaches(before, after, comps, seed, y, k) == seed(y),
    decreases k,
{
    if k > 0 {
        lemma_reaches_outside(before, after, comps, seed, y, (k - 1) as nat);
    }
}

/// Whether some entry of `v` is in the current round: a listed component
/// whose flag is set, or `extra`.
fn any_in_round(v: &Vec<String>, comps: &Vec<String>, flags: &Vec<bool>, extra: &Option<String>) -> (r: bool)
    requires
        flags.len() == comps.len(),
    ensures
        r == any_in_round_spec(v.deep_view(), comps.deep_view(), flags@, extra.deep_view()),
{
    let mut t: usize = 0;
    while t < v.len()
        invariant
            t <= v.len(),
            flags.len() == comps.len(),
            forall|u: int|
                0 <= u < t ==> !(extra.deep_view() == Some(v.deep_view()[u]) || exists|i: int|
                    0 <= i < comps.len() && comps.deep_view()[i] == #[trigger] v.deep_view()[u] && flags@[i]),
        decreases v.len() - t,
    {
        let y = &v[t];
        assert(v.deep_view()[t as int] == y@);
        let hit_extra = match extra {
            Some(e) => *e == *y,
            None => false,
        };
        if hit_extra {
            assert(extra.deep_view() == Some(v.deep_view()[t as int]));
            return true;
        }
        let mut i: usize = 0;
        while i < comps.len()
            invariant
                i <= comps.len(),
                flags.len() == comps.len(),
                t < v.len(),
                y@ == v.deep_view()[t as int],
                forall|j: int| 0 <= j < i ==> !(comps.deep_view()[j] == y@ && flags@[j]),
            decreases comps.len() - i,
        {
            assert(comps.deep_view()[i as int] == comps@[i as int]@);
            if flags[i] && comps[i] == *y {
                assert(extra.deep_view() == Some(v.deep_view()[t as int]) || exists|i2: int|
                    0 <= i2 < comps.len() && comps.deep_view()[i2] == v.deep_view()[t as int] && flags@[i2]);
                return true;
            }
            i = i + 1;
        }
        t = t + 1;
    }
    false
}

/// The prerequisites a table lists for `x`.
fn prereqs_of(d: &Table<Vec<String>>, x: &String) -> (r: Vec<String>)
    ensures
        r.deep_view() == prereqs(d@, x@),
{
    match d.get(x) {
        Some(v) => crate::text::clone_ids(v),
        None => Vec::new(),
    }
}

/// Flags of the components of `comps` that a seed affects: `init` flags the
/// seeds among `comps`, and `extra` is the one seed outside them, if any.
pub fn affected_flags(
    before: &Table<Vec<String>>,
    after: &Table<Vec<String>>,
    comps: &Vec<String>,
    init: Vec<bool>,
    extra: &Option<String>,
    Ghost(seed): Ghost<spec_fn(Seq<char>) -> bool>,
) -> (r: Vec<bool>)
    requires
        init.len() == comps.len(),
        forall|i: int| 0 <= i < comps.len() ==> init@[i] == seed(#[trigger] comps.deep_view()[i]),
        forall|y: Seq<char>| !comps.deep_view().contains(y) ==> (seed(y) <==> extra.deep_view() == Some(y)),
        extra matches Some(e) ==> !comps.deep_view().contains(e@),
    ensures
        r.len() == comps.len(),
        forall|i: int|
            0 <= i < comps.len() ==> r@[i] == affected(before@, after@, comps.deep_view(), seed)(
                #[trigger] comps.deep_view()[i],
            ),
{
    let ghost cv = comps.deep_view();
    let mut cur = init;
    let mut k: usize = 0;
    while k < comps.len()
        invariant
            k <= comps.len(),
            cv == comps.deep_view(),
            cur.len() == comps.len(),
            forall|y: Seq<char>| !cv.contains(y) ==> (seed(y) <==> extra.deep_view() == Some(y)),
            extra matches Some(e) ==> !cv.contains(e@),
            forall|i: int| 0 <= i < comps.len() ==> cur@[i] == reaches(before@, after@, cv, seed, #[trigger] cv[i], k as nat),
        decreases comps.len() - k,
    {
        let mut next: Vec<bool> = Vec::new();
        let mut j: usize = 0;
        while j < comps.len()
            invariant
                j <= comps.len(),
                k < comps.len(),
                cv == comps.deep_view(),
                cur.len() == comps.len(),
                next.len() == j,
                forall|y: Seq<char>| !cv.contains(y) ==> (seed(y) <==> extra.deep_view() == Some(y)),
                extra matches Some(e) ==> !cv.contains(e@),
                forall|i: int| 0 <= i < comps.len() ==> cur@[i] == reaches(before@, after@, cv, seed, #[trigger] cv[i], k as nat),
                forall|i: int| 0 <= i < j ==> next@[i] == reaches(before@, after@, cv, seed, #[trigger] cv[i], (k + 1) as nat),
            decreases comps.len() - j,
        {
            let x = &comps[j];
            assert(cv[j as int] == x@);
            let po = prereqs_of(before, x);
            let pn = prereqs_of(after, x);
            let f = cur[j] || any_in_round(&po, comps, &cur, extra) || any_in_round(&pn, comps, &cur, extra);
            proof {
                let kk = k as nat;
                // Membership in the current round, for any name.
                assert forall|y: Seq<char>|
                    (extra.deep_view() == Some(y) || exists|i: int| 0 <= i < comps.len() && cv[i] == y && cur@[i])
                        <==> #[trigger] reaches(before@, after@, cv, seed, y, kk) by {
                    if cv.contains(y) {
                        let i0 = choose|i: int| 0 <= i < cv.len() && cv[i] == y;
                        assert(cur@[i0] == reaches(before@, after@, cv, seed, cv[i0], kk));
                        if extra.deep_view() == Some(y) {
                            assert(!cv.contains(y));
                        }
                    } else {
                        lemma_reaches_outside(before@, after@, cv, seed, y, kk);
                    }
                }
                assert(cv.contains(x@));
                if f && !cur@[j as int] {
                    if any_in_round_spec(po.deep_view(), cv, cur@, extra.deep_view()) {
                        let pv = po.deep_view();
                        let t = choose|t: int|
                            0 <= t < pv.len() && (extra.deep_view() == Some(pv[t]) || exists|i: int|
                                0 <= i < comps.len() && cv[i] == #[trigger] pv[t] && cur@[i]);
                        assert(prereqs(before@, x@).contains(pv[t]));
                        assert(depends_either(before@, after@, x@, pv[t]));
                        assert(reaches(before@, after@, cv, seed, pv[t], kk));
                        lemma_reaches_step(before@, after@, cv, seed, x@, pv[t], kk + 1);
                    } else {
                        let pv = pn.deep_view();
                        assert(any_in_round_spec(pv, cv, cur@, extra.deep_view()));
                        let t = choose|t: int|
                            0 <= t < pv.len() && (extra.deep_view() == Some(pv[t]) || exists|i: int|
                                0 <= i < comps.len() && cv[i] == #[trigger] pv[t] && cur@[i]);
                        assert(prereqs(after@, x@).contains(pv[t]));
                        assert(depends_either(before@, after@, x@, pv[t]));
                        assert(reaches(before@, after@, cv, seed, pv[t], kk));
                        lemma_reaches_step(before@, after@, cv, seed, x@, pv[t], kk + 1);
                    }
                }
                if cur@[j as int] {
                    assert(reaches(before@, after@, cv, seed, x@, kk + 1));
                }
                if !f {
                    assert forall|y: Seq<char>| depends_either(before@, after@, x@, y) implies !#[trigger] reaches(
                        before@,
                        after@,
                        cv,
                        seed,
                        y,
                        kk,
                    ) by {
                        if prereqs(before@, x@).contains(y) {
                            let t = choose|t: int| 0 <= t < po.deep_view().len() && po.deep_view()[t] == y;
                            assert(!(extra.deep_view() == Some(po.deep_view()[t]) || exists|i: int|
                                0 <= i < comps.len() && cv[i] == po.deep_view()[t] && cur@[i]));
                        } else {
                            let t = choose|t: int| 0 <= t < pn.deep_view().len() && pn.deep_view()[t] == y;
                            assert(!(extra.deep_view() == Some(pn.deep_view()[t]) || exists|i: int|
                                0 <= i < comps.len() && cv[i] == pn.deep_view()[t] && cur@[i]));
                        }
                    }
                    lemma_reaches_none(before@, after@, cv, seed, x@, kk + 1);
                }
            }
            next.push(f);
            j = j + 1;
        }
        cur = next;
        k = k + 1;
    }
    cur
}

/// Whether some entry of `v` is in the current round (the statement of
/// `any_in_round`).
pub open spec fn any_in_round_spec(
    v: Seq<Seq<char>>,
    cv: Seq<Seq<char>>,
    flags: Seq<bool>,
    extra: Option<Seq<char>>,
) -> bool {
    exists|t: int|
        0 <= t < v.len() && (extra == Some(v[t]) || exists|i: int| 0 <= i < cv.len() && cv[i] == #[trigger] v[t] && flags[i])
}

/// Clears every flagged component of `comps` from each layer of `layers[i..]`.
pub fn clear_flagged(
    marks: &mut Table<Table<String>>,
    layers: &Vec<String>,
    i: usize,
    comps: &Vec<String>,
    flags: &Vec<bool>,
    Ghost(hit): Ghost<spec_fn(Seq<char>) -> bool>,
)
    requires
        i <= layers.len(),
        flags.len() == comps.len(),
        forall|j: int| 0 <= j < comps.len() ==> flags@[j] == hit(#[trigger] comps.deep_view()[j]),
    ensures
        final(marks)@ == clear_affected(old(marks)@, layers.deep_view(), i as int, comps.deep_view(), hit),
{
    let ghost m0 = marks@;
    let ghost cv = comps.deep_view();
    let mut j: usize = 0;
    assert(cv.take(0) =~= Seq::<Seq<char>>::empty());
    while j < comps.len()
        invariant
            j <= comps.len(),
            i <= layers.len(),
            flags.len() == comps.len(),
            cv == comps.deep_view(),
            forall|t: int| 0 <= t < comps.len() ==> flags@[t] == hit(#[trigger] cv[t]),
            marks@ == clear_affected(m0, layers.deep_view(), i as int, cv.take(j as int), hit),
        decreases comps.len() - j,
    {
        assert(cv.take(j + 1).drop_last() =~= cv.take(j as int));
        assert(cv.take(j + 1).last() == comps@[j as int]@);
        assert(flags@[j as int] == hit(cv[j as int]));
        if flags[j] {
            clear_from(marks, layers, i, &comps[j]);
        }
        j = j + 1;
    }
    assert(cv.take(comps.len() as int) =~= cv);
}

/// Moves on the input epoch of every flagged component of `comps`.
pub fn advance_flagged(
    epochs: &mut Table<u64>,
    comps: &Vec<String>,
    flags: &Vec<bool>,
    Ghost(hit): Ghost<spec_fn(Seq<char>) -> bool>,
)
    requires
        flags.len() == comps.len(),
        forall|j: int| 0 <= j < comps.len() ==> flags@[j] == hit(#[trigger] comps.deep_view()[j]),
    ensures
        final(epochs)@ == advance_epochs(old(epochs)@, comps.deep_view(), hit),
{
    let ghost e0 = epochs@;
    let ghost cv = comps.deep_view();
    let mut j: usize = 0;
    assert(cv.take(0) =~= Seq::<Seq<char>>::empty());
    while j < comps.len()
        invariant
            j <= comps.len(),
            flags.len() == comps.len(),
            cv == comps.deep_view(),
            forall|t: int| 0 <= t < comps.len() ==> flags@[t] == hit(#[trigger] cv[t]),
            epochs@ == advance_epochs(e0, cv.take(j as int), hit),
        decreases comps.len() - j,
    {
        assert(cv.take(j + 1).drop_last() =~= cv.take(j as int));
        assert(cv.take(j + 1).last() == comps@[j as int]@);
        assert(flags@[j as int] == hit(cv[j as int]));
        if flags[j] {
            let c = &comps[j];
            let now = epoch(epochs, c);
            let moved = if now == u64::MAX {
                now
            } else {
                now + 1
            };
            epochs.insert(c.clone(), moved);
        }
        j = j + 1;
    }
    assert(cv.take(comps.len() as int) =~= cv);
}

/// Whether every id of `a` is in `b`.
fn subset_ids(a: &Vec<String>, b: &Vec<String>) -> (r: bool)
    ensures
        r == forall|t: Seq<char>| a.deep_view().contains(t) ==> b.deep_view().contains(t),
{
    let mut i: usize = 0;
    while i < a.len()
        invariant
            i <= a.len(),
            forall|j: int| 0 <= j < i ==> b.deep_view().contains(#[trigger] a.deep_view()[j]),
        decreases a.len() - i,
    {
        assert(a.deep_view()[i as int] == a@[i as int]@);
        if !contains_id(b, &a[i]) {
            return false;
        }
        i = i + 1;
    }
    proof {
        assert forall|t: Seq<char>| a.deep_view().contains(t) implies b.deep_view().contains(t) by {
            let j = choose|j: int| 0 <= j < a.deep_view().len() && a.deep_view()[j] == t;
            assert(b.deep_view().contains(a.deep_view()[j]));
        }
    }
    true
}

/// Whether two lists hold the same ids.
fn same_ids(a: &Vec<String>, b: &Vec<String>) -> (r: bool)
    ensures
        r == (a.deep_view().to_set() == b.deep_view().to_set()),
{
    let x = subset_ids(a, b);
    let y = subset_ids(b, a);
    proof {
        if x && y {
            assert(a.deep_view().to_set() =~= b.deep_view().to_set());
        }
        if !x {
            let t = choose|t: Seq<char>| !(a.deep_view().contains(t) ==> b.deep_view().contains(t));
            assert(a.deep_view().to_set().contains(t) && !b.deep_view().to_set().contains(t));
        }
        if !y {
            let t = choose|t: Seq<char>| !(b.deep_view().contains(t) ==> a.deep_view().contains(t));
            assert(b.deep_view().to_set().contains(t) && !a.deep_view().to_set().contains(t));
        }
    }
    x && y
}

/// Flags of the components of the new plan whose prerequisites changed.
fn edge_flags(prior: &Blueprint, nb: &Blueprint) -> (r: Vec<bool>)
    ensures
        r.len() == nb.components.len(),
        forall|i: int| 0 <= i < nb.components.len() ==> r@[i] == edges_changed(prior@, nb@)(#[trigger] nb.components.deep_view()[i]),
{
    let ghost cv = nb.components.deep_view();
    let mut r: Vec<bool> = Vec::new();
    let mut i: usize = 0;
    while i < nb.components.len()
        invariant
            i <= nb.components.len(),
            cv == nb.components.deep_view(),
            r.len() == i,
            forall|j: int| 0 <= j < i ==> r@[j] == edges_changed(prior@, nb@)(#[trigger] cv[j]),
        decreases nb.components.len() - i,
    {
        let x = &nb.components[i];
        assert(cv[i as int] == x@);
        assert(cv.contains(x@));
        let a = prereqs_of(&prior.dependencies, x);
        let b = prereqs_of(&nb.dependencies, x);
        r.push(!same_ids(&a, &b));
        i = i + 1;
    }
    r
}

/// Flags of the components of the new plan that have changed prerequisites
/// or depend on one that has.
pub fn edge_affected_flags(prior: &Blueprint, nb: &Blueprint) -> (r: Vec<bool>)
    ensures
        r.len() == nb.components.len(),
        forall|i: int| 0 <= i < nb.components.len() ==> r@[i] == edge_affected(prior@, nb@)(#[trigger] nb.components.deep_view()[i]),
{
    let init = edge_flags(prior, nb);
    affected_flags(
        &prior.dependencies,
        &nb.dependencies,
        &nb.components,
        init,
        &None,
        Ghost(edges_changed(prior@, nb@)),
    )
}

/// Flags of the components of the new plan that are `c` or depend on it.
pub fn dependent_flags(prior: &Blueprint, nb: &Blueprint, c: &String) -> (r: Vec<bool>)
    ensures
        r.len() == nb.components.len(),
        forall|i: int| 0 <= i < nb.components.len() ==> r@[i] == dependents_of(prior@, nb@, c@)(#[trigger] nb.components.deep_view()[i]),
{
    let ghost cv = nb.components.deep_view();
    let mut init: Vec<bool> = Vec::new();
    let mut i: usize = 0;
    while i < nb.components.len()
        invariant
            i <= nb.components.len(),
            cv == nb.components.deep_view(),
            init.len() == i,
            forall|j: int| 0 <= j < i ==> init@[j] == is_text(c@)(#[trigger] cv[j]),
        decreases nb.components.len() - i,
    {
        assert(cv[i as int] == nb.components@[i as int]@);
        init.push(nb.components[i] == *c);
        i = i + 1;
    }
    let extra = if contains_id(&nb.components, c) {
        None
    } else {
        Some(c.clone())
    };
    affected_flags(&prior.dependencies, &nb.dependencies, &nb.components, init, &extra, Ghost(is_text(c@)))
}

/// Flags of the components an amendment touches.
pub fn touched_flags(prior: &Blueprint, nb: &Blueprint, inv: &Vec<Invalidation>) -> (r: Vec<bool>)
    ensures
        r.len() == nb.components.len(),
        forall|i: int|
            0 <= i < nb.components.len() ==> r@[i] == touched(
                prior@,
                nb@,
                inv@.map_values(|v: Invalidation| (v.component@, v.layer@)),
            )(#[trigger] nb.components.deep_view()[i]),
{
    let ghost cv = nb.components.deep_view();
    let ghost iv = inv@.map_values(|v: Invalidation| (v.component@, v.layer@));
    let mut r = edge_affected_flags(prior, nb);
    let mut k: usize = 0;
    while k < inv.len()
        invariant
            k <= inv.len(),
            cv == nb.components.deep_view(),
            iv == inv@.map_values(|v: Invalidation| (v.component@, v.layer@)),
            r.len() == nb.components.len(),
            forall|j: int|
                0 <= j < nb.components.len() ==> r@[j] == (edge_affected(prior@, nb@)(#[trigger] cv[j])
                    || exists|t: int| 0 <= t < k && dependents_of(prior@, nb@, iv[t].0)(cv[j])),
        decreases inv.len() - k,
    {
        let f = dependent_flags(prior, nb, &inv[k].component);
        assert(iv[k as int].0 == inv@[k as int].component@);
        let mut next: Vec<bool> = Vec::new();
        let mut j: usize = 0;
        while j < r.len()
            invariant
                j <= r.len(),
                k < inv.len(),
                r.len() == nb.components.len(),
                f.len() == nb.components.len(),
                next.len() == j,
                cv == nb.components.deep_view(),
                iv == inv@.map_values(|v: Invalidation| (v.component@, v.layer@)),
                iv[k as int].0 == inv@[k as int].component@,
                forall|t: int| 0 <= t < nb.components.len() ==> f@[t] == dependents_of(prior@, nb@, inv@[k as int].component@)(#[trigger] cv[t]),
                forall|t: int|
                    0 <= t < nb.components.len() ==> r@[t] == (edge_affected(prior@, nb@)(#[trigger] cv[t])
                        || exists|u: int| 0 <= u < k && dependents_of(prior@, nb@, iv[u].0)(cv[t])),
                forall|t: int|
                    0 <= t < j ==> next@[t] == (edge_affected(prior@, nb@)(#[trigger] cv[t])
                        || exists|u: int| 0 <= u < k + 1 && dependents_of(prior@, nb@, iv[u].0)(cv[t])),
            decreases r.len() - j,
        {
            let b = r[j] || f[j];
            proof {
                let x = cv[j as int];
                if f@[j as int] {
                    assert(dependents_of(prior@, nb@, iv[k as int].0)(x));
                }
                if (exists|u: int| 0 <= u < k + 1 && dependents_of(prior@, nb@, iv[u].0)(x)) && !f@[j as int] {
                    let u = choose|u: int| 0 <= u < k + 1 && dependents_of(prior@, nb@, iv[u].0)(x);
                    assert(u < k);
                }
            }
            next.push(b);
            j = j + 1;
        }
        r = next;
        k = k + 1;
    }
    proof {
        assert forall|j: int| 0 <= j < nb.components.len() implies r@[j] == touched(prior@, nb@, iv)(
            #[trigger] cv[j],
        ) by {
            if exists|t: int| 0 <= t < iv.len() && #[trigger] dependents_of(prior@, nb@, iv[t].0)(cv[j]) {
                let t = choose|t: int| 0 <= t < iv.len() && #[trigger] dependents_of(prior@, nb@, iv[t].0)(cv[j]);
                assert(0 <= t < inv.len());
            }
        }
    }
    r
}

/// A component's input epoch.
pub fn epoch(epochs: &Table<u64>, c: &String) -> (r: u64)
    ensures
        r == epoch_of(epochs@, c@),
{
    match epochs.get(c) {
        Some(e) => *e,
        None => 0,
    }
}

} // verus!
