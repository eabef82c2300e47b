//! Validation of a blueprint: bounded texts, its shape, unique ids, and a
//! dependency graph over known components with no self edge, no repeated
//! edge and no cycle.
use vstd::prelude::*;
use vstd::seq_lib::*;
use vstd::set_lib::*;
use crate::ledger::model::{BlueprintView, Blueprint, DependencyView, Field, LedgerError, MAX_COMPONENTS, MAX_ID, MAX_LAYERS, MAX_TEXT};
use crate::table::{contains_id, entries_map, lemma_entries_map_value};
use crate::text::{bounded, chars_of, chars_eq, within_bound};

verus! {

/// The error a bounded field gives, if it breaks its bound.
pub open spec fn bound_error(x: Seq<char>, n: usize, f: Field) -> Option<LedgerError> {
    if bounded(x, n as nat) {
        None
    } else {
        Some(LedgerError::Bound { field: f, max: n })
    }
}

/// The first problem among a list of ids, checked in order: each must be
/// bounded and must not repeat an earlier one.
pub open spec fn ids_error(v: Seq<Seq<char>>) -> Option<LedgerError>
    decreases v.len(),
{
    if v.len() == 0 {
        None
    } else {
        match ids_error(v.drop_last()) {
            Some(e) => Some(e),
            None => if !bounded(v.last(), MAX_ID as nat) {
                Some(LedgerError::Bound { field: Field::BlueprintId, max: MAX_ID })
            } else if v.drop_last().contains(v.last()) {
                Some(LedgerError::DuplicateId)
            } else {
                None
            },
        }
    }
}

/// Scaffold first, 1 to 64 components and 1 to 16 layers.
pub open spec fn shape_ok(b: BlueprintView) -> bool {
    &&& 1 <= b.components.len() <= MAX_COMPONENTS
    &&& 1 <= b.layers.len() <= MAX_LAYERS
    &&& b.layers[0] == "scaffold"@
}

/// The first problem with a blueprint's texts, shape and ids.
pub open spec fn validity_error(b: BlueprintView) -> Option<LedgerError> {
    if !bounded(b.objective, MAX_TEXT as nat) {
        Some(LedgerError::Bound { field: Field::Objective, max: MAX_TEXT })
    } else if !bounded(b.next, MAX_TEXT as nat) {
        Some(LedgerError::Bound { field: Field::Next, max: MAX_TEXT })
    } else if !shape_ok(b) {
        Some(LedgerError::BlueprintShape)
    } else if ids_error(b.components) is Some {
        ids_error(b.components)
    } else {
        ids_error(b.layers)
    }
}

/// The first problem among the prerequisites `ps` of component `c`.
pub open spec fn prereqs_error(
    c: Seq<char>,
    comps: Seq<Seq<char>>,
    ps: Seq<Seq<char>>,
) -> Option<LedgerError>
    decreases ps.len(),
{
    if ps.len() == 0 {
        None
    } else {
        match prereqs_error(c, comps, ps.drop_last()) {
            Some(e) => Some(e),
            None => if !comps.contains(ps.last()) {
                Some(LedgerError::UnknownComponent)
            } else if ps.last() == c || ps.drop_last().contains(ps.last()) {
                Some(LedgerError::InvalidDependencyEdge)
            } else {
                None
            },
        }
    }
}

/// The first problem among dependency entries, checked in order.
pub open spec fn edges_error(comps: Seq<Seq<char>>, es: Seq<DependencyView>) -> Option<
    LedgerError,
>
    decreases es.len(),
{
    if es.len() == 0 {
        None
    } else {
        match edges_error(comps, es.drop_last()) {
            Some(e) => Some(e),
            None => if !comps.contains(es.last().0) {
                Some(LedgerError::UnknownComponent)
            } else {
                prereqs_error(es.last().0, comps, es.last().1)
            },
        }
    }
}

/// Component `a` depends on `b`.
pub open spec fn depends_on(d: Map<Seq<char>, Seq<Seq<char>>>, a: Seq<char>, b: Seq<char>) -> bool {
    d.contains_key(a) && d[a].contains(b)
}

/// Each component of `w` depends on the next one.
pub open spec fn is_dependency_walk(d: Map<Seq<char>, Seq<Seq<char>>>, w: Seq<Seq<char>>) -> bool {
    forall|i: int| 0 <= i < w.len() - 1 ==> depends_on(d, #[trigger] w[i], w[i + 1])
}

/// Some component depends, through one or more steps, on itself.
pub open spec fn has_dependency_cycle(d: Map<Seq<char>, Seq<Seq<char>>>) -> bool {
    exists|w: Seq<Seq<char>>| w.len() >= 2 && w[0] == w.last() && is_dependency_walk(d, w)
}

/// The first problem with a blueprint's dependencies.
pub open spec fn dependency_error(b: BlueprintView) -> Option<LedgerError> {
    match edges_error(b.components, b.dependency_entries) {
        Some(e) => Some(e),
        None => if has_dependency_cycle(b.dependencies) {
            Some(LedgerError::DependencyCycle)
        } else {
            None
        },
    }
}

/// The first problem with a blueprint, if any.
pub open spec fn blueprint_error(b: BlueprintView) -> Option<LedgerError> {
    match validity_error(b) {
        Some(e) => Some(e),
        None => dependency_error(b),
    }
}

/// A list of ids with no problem holds bounded, pairwise distinct ids.
proof fn lemma_ids_clean(v: Seq<Seq<char>>)
    requires
        ids_error(v) is None,
    ensures
        forall|i: int| 0 <= i < v.len() ==> bounded(#[trigger] v[i], MAX_ID as nat),
        forall|i: int, j: int| 0 <= i < j < v.len() ==> #[trigger] v[i] != #[trigger] v[j],
    decreases v.len(),
{
    if v.len() > 0 {
        let d = v.drop_last();
        lemma_ids_clean(d);
        assert forall|i: int, j: int| 0 <= i < j < v.len() implies #[trigger] v[i] != #[trigger] v[j] by {
            if j == v.len() - 1 {
                assert(d[i] == v[i]);
                assert(!d.contains(v.last()));
            } else {
                assert(d[i] == v[i] && d[j] == v[j]);
            }
        }
        assert forall|i: int| 0 <= i < v.len() implies bounded(#[trigger] v[i], MAX_ID as nat) by {
            if i < v.len() - 1 {
                assert(d[i] == v[i]);
            }
        }
    }
}

/// A blueprint with no problem has a nonempty, bounded objective and next
/// action, scaffold as its first layer, 1 to 64 components and 1 to 16
/// layers, and bounded, pairwise distinct component ids and layer ids.
pub proof fn law_valid_blueprint_shape(b: BlueprintView)
    requires
        blueprint_error(b) is None,
    ensures
        bounded(b.objective, MAX_TEXT as nat),
        bounded(b.next, MAX_TEXT as nat),
        1 <= b.components.len() <= MAX_COMPONENTS,
        1 <= b.layers.len() <= MAX_LAYERS,
        b.layers[0] == "scaffold"@,
        forall|i: int| 0 <= i < b.components.len() ==> bounded(#[trigger] b.components[i], MAX_ID as nat),
        forall|i: int| 0 <= i < b.layers.len() ==> bounded(#[trigger] b.layers[i], MAX_ID as nat),
        forall|i: int, j: int| 0 <= i < j < b.components.len() ==> #[trigger] b.components[i] != #[trigger] b.components[j],
        forall|i: int, j: int| 0 <= i < j < b.layers.len() ==> #[trigger] b.layers[i] != #[trigger] b.layers[j],
{
    lemma_ids_clean(b.components);
    lemma_ids_clean(b.layers);
}

/// A blueprint with no problem names only its own components in its
/// dependencies, lists no prerequisite twice for a component, and no
/// component depends on itself, directly or through others.
pub proof fn law_valid_dependencies(b: BlueprintView)
    requires
        blueprint_error(b) is None,
    ensures
        forall|i: int|
            0 <= i < b.dependency_entries.len() ==> b.components.contains((#[trigger] b.dependency_entries[i]).0)
                && forall|j: int|
                0 <= j < b.dependency_entries[i].1.len() ==> b.components.contains(
                    #[trigger] b.dependency_entries[i].1[j],
                ),
        forall|i: int|
            0 <= i < b.dependency_entries.len() ==> (forall|j: int|
                0 <= j < (#[trigger] b.dependency_entries[i]).1.len() ==> b.dependency_entries[i].1[j]
                    != b.dependency_entries[i].0) && (forall|j: int, l: int|
                0 <= j < l < b.dependency_entries[i].1.len() ==> #[trigger] b.dependency_entries[i].1[j]
                    != #[trigger] b.dependency_entries[i].1[l]),
        !has_dependency_cycle(b.dependencies),
{
    lemma_entries_known(b.components, b.dependency_entries);
    lemma_entries_distinct(b.components, b.dependency_entries);
}

/// `Ok` exactly when there is no error.
pub open spec fn as_result(e: Option<LedgerError>) -> Result<(), LedgerError> {
    match e {
        Some(x) => Err(x),
        None => Ok(()),
    }
}

/// Checks that `x` is nonempty after trimming and at most `n` bytes.
pub fn bound(x: &str, n: usize, k: Field) -> (r: Result<(), LedgerError>)
    ensures
        r == as_result(bound_error(x@, n, k)),
{
    if within_bound(x, n) {
        Ok(())
    } else {
        Err(LedgerError::Bound { field: k, max: n })
    }
}

/// Checks that `c` is one of the blueprint's components.
pub fn component(b: &Blueprint, c: &String) -> (r: Result<(), LedgerError>)
    ensures
        r == (if b@.components.contains(c@) {
            Ok::<(), LedgerError>(())
        } else {
            Err(LedgerError::UnknownComponent)
        }),
{
    if contains_id(&b.components, c) {
        Ok(())
    } else {
        Err(LedgerError::UnknownComponent)
    }
}

/// Checks a list of ids in order.
fn check_ids(v: &Vec<String>) -> (r: Result<(), LedgerError>)
    ensures
        r == as_result(ids_error(v.deep_view())),
{
    let mut i: usize = 0;
    while i < v.len()
        invariant
            i <= v.len(),
            ids_error(v.deep_view().take(i as int)) is None,
        decreases v.len() - i,
    {
        let ghost pre = v.deep_view().take(i as int);
        assert(v.deep_view().take(i + 1).drop_last() =~= pre);
        assert(v.deep_view().take(i + 1).last() == v.deep_view()[i as int]);
        match bound(v[i].as_str(), MAX_ID, Field::BlueprintId) {
            Err(e) => {
                proof {
                    lemma_ids_error_prefix(v.deep_view(), i as int + 1);
                }
                return Err(e);
            },
            Ok(()) => {},
        }
        let mut j: usize = 0;
        while j < i
            invariant
                j <= i < v.len(),
                pre == v.deep_view().take(i as int),
                ids_error(pre) is None,
                bounded(v.deep_view()[i as int], MAX_ID as nat),
                v.deep_view().take(i + 1).drop_last() == pre,
                v.deep_view().take(i + 1).last() == v.deep_view()[i as int],
                forall|k: int| 0 <= k < j ==> v.deep_view()[k] != v.deep_view()[i as int],
            decreases i - j,
        {
            if v[j] == v[i] {
                proof {
                    assert(pre[j as int] == v.deep_view()[i as int]);
                    lemma_ids_error_prefix(v.deep_view(), i as int + 1);
                }
                return Err(LedgerError::DuplicateId);
            }
            j = j + 1;
        }
        proof {
            if pre.contains(v.deep_view()[i as int]) {
                let k = choose|k: int| 0 <= k < pre.len() && pre[k] == v.deep_view()[i as int];
                assert(v.deep_view()[k] == pre[k]);
            }
        }
        i = i + 1;
    }
    assert(v.deep_view().take(v.len() as int) =~= v.deep_view());
    Ok(())
}

/// An error in a prefix is the error of the whole list.
proof fn lemma_ids_error_prefix(v: Seq<Seq<char>>, n: int)
    requires
        0 <= n <= v.len(),
        ids_error(v.take(n)) is Some,
    ensures
        ids_error(v) == ids_error(v.take(n)),
    decreases v.len() - n,
{
    if n < v.len() {
        assert(v.take(n + 1).drop_last() =~= v.take(n));
        lemma_ids_error_prefix(v, n + 1);
    } else {
        assert(v.take(n) =~= v);
    }
}

/// Checks a blueprint's texts, shape and ids.
pub fn valid(b: &Blueprint) -> (r: Result<(), LedgerError>)
    ensures
        r == as_result(validity_error(b@)),
{
    match bound(b.objective.as_str(), MAX_TEXT, Field::Objective) {
        Err(e) => return Err(e),
        Ok(()) => {},
    }
    match bound(b.next.as_str(), MAX_TEXT, Field::Next) {
        Err(e) => return Err(e),
        Ok(()) => {},
    }
    if b.components.len() == 0 || b.components.len() > MAX_COMPONENTS || b.layers.len() == 0
        || b.layers.len() > MAX_LAYERS || !chars_eq(
        &chars_of(b.layers[0].as_str()),
        &chars_of("scaffold"),
    ) {
        return Err(LedgerError::BlueprintShape);
    }
    match check_ids(&b.components) {
        Err(e) => return Err(e),
        Ok(()) => {},
    }
    check_ids(&b.layers)
}


/// An error in a prefix of the prerequisites is the error of the whole list.
proof fn lemma_prereqs_error_prefix(c: Seq<char>, comps: Seq<Seq<char>>, ps: Seq<Seq<char>>, n: int)
    requires
        0 <= n <= ps.len(),
        prereqs_error(c, comps, ps.take(n)) is Some,
    ensures
        prereqs_error(c, comps, ps) == prereqs_error(c, comps, ps.take(n)),
    decreases ps.len() - n,
{
    if n < ps.len() {
        assert(ps.take(n + 1).drop_last() =~= ps.take(n));
        lemma_prereqs_error_prefix(c, comps, ps, n + 1);
    } else {
        assert(ps.take(n) =~= ps);
    }
}

/// An error in a prefix of the entries is the error of all of them.
proof fn lemma_edges_error_prefix(comps: Seq<Seq<char>>, es: Seq<DependencyView>, n: int)
    requires
        0 <= n <= es.len(),
        edges_error(comps, es.take(n)) is Some,
    ensures
        edges_error(comps, es) == edges_error(comps, es.take(n)),
    decreases es.len() - n,
{
    if n < es.len() {
        assert(es.take(n + 1).drop_last() =~= es.take(n));
        lemma_edges_error_prefix(comps, es, n + 1);
    } else {
        assert(es.take(n) =~= es);
    }
}

/// Checks the prerequisites `ps` of component `c` in order.
fn check_prereqs(b: &Blueprint, c: &String, ps: &Vec<String>) -> (r: Result<(), LedgerError>)
    ensures
        r == as_result(prereqs_error(c@, b@.components, ps.deep_view())),
{
    let ghost v = ps.deep_view();
    let mut j: usize = 0;
    while j < ps.len()
        invariant
            j <= ps.len(),
            v == ps.deep_view(),
            prereqs_error(c@, b@.components, v.take(j as int)) is None,
        decreases ps.len() - j,
    {
        let ghost pre = v.take(j as int);
        assert(v.take(j + 1).drop_last() =~= pre);
        assert(v.take(j + 1).last() == v[j as int]);
        match component(b, &ps[j]) {
            Err(e) => {
                proof {
                    lemma_prereqs_error_prefix(c@, b@.components, v, j + 1);
                }
                return Err(e);
            },
            Ok(()) => {},
        }
        let mut dup = ps[j] == *c;
        let mut k: usize = 0;
        while k < j
            invariant
                k <= j < ps.len(),
                v == ps.deep_view(),
                dup == (v[j as int] == c@ || exists|x: int| 0 <= x < k && v[x] == v[j as int]),
            decreases j - k,
        {
            if ps[k] == ps[j] {
                assert(v[k as int] == v[j as int]);
                dup = true;
            }
            proof {
                if exists|x: int| 0 <= x < k + 1 && v[x] == v[j as int] {
                    let x = choose|x: int| 0 <= x < k + 1 && v[x] == v[j as int];
                    if x < k {
                        assert(exists|y: int| 0 <= y < k && v[y] == v[j as int]);
                    }
                }
            }
            k = k + 1;
        }
        proof {
            if pre.contains(v[j as int]) {
                let x = choose|x: int| 0 <= x < pre.len() && pre[x] == v[j as int];
                assert(v[x] == pre[x]);
            }
            if exists|x: int| 0 <= x < j && v[x] == v[j as int] {
                let x = choose|x: int| 0 <= x < j && v[x] == v[j as int];
                assert(pre[x] == v[x]);
            }
        }
        if dup {
            proof {
                lemma_prereqs_error_prefix(c@, b@.components, v, j + 1);
            }
            return Err(LedgerError::InvalidDependencyEdge);
        }
        j = j + 1;
    }
    assert(v.take(ps.len() as int) =~= v);
    Ok(())
}

/// Checks the dependency entries in order.
fn check_edges(b: &Blueprint) -> (r: Result<(), LedgerError>)
    ensures
        r == as_result(edges_error(b@.components, b@.dependency_entries)),
{
    let ghost es = b@.dependency_entries;
    let mut i: usize = 0;
    while i < b.dependencies.entries.len()
        invariant
            i <= b.dependencies.entries.len(),
            es == b@.dependency_entries,
            edges_error(b@.components, es.take(i as int)) is None,
        decreases b.dependencies.entries.len() - i,
    {
        let e = &b.dependencies.entries[i];
        assert(es[i as int] == (e.key@, e.value.deep_view()));
        assert(es.take(i + 1).drop_last() =~= es.take(i as int));
        assert(es.take(i + 1).last() == es[i as int]);
        let r = match component(b, &e.key) {
            Err(x) => Err(x),
            Ok(()) => check_prereqs(b, &e.key, &e.value),
        };
        match r {
            Err(x) => {
                proof {
                    lemma_edges_error_prefix(b@.components, es, i + 1);
                }
                return Err(x);
            },
            Ok(()) => {},
        }
        i = i + 1;
    }
    assert(es.take(b.dependencies.entries.len() as int) =~= es);
    Ok(())
}

/// Every dependency key and prerequisite is a known component.
pub open spec fn edges_known(comps: Seq<Seq<char>>, d: Map<Seq<char>, Seq<Seq<char>>>) -> bool {
    forall|k: Seq<char>|
        #![trigger d.contains_key(k)]
        d.contains_key(k) ==> comps.contains(k) && forall|i: int|
            0 <= i < d[k].len() ==> comps.contains(#[trigger] d[k][i])
}

proof fn lemma_prereqs_known(c: Seq<char>, comps: Seq<Seq<char>>, ps: Seq<Seq<char>>)
    requires
        prereqs_error(c, comps, ps) is None,
    ensures
        forall|i: int| 0 <= i < ps.len() ==> comps.contains(#[trigger] ps[i]),
    decreases ps.len(),
{
    if ps.len() > 0 {
        lemma_prereqs_known(c, comps, ps.drop_last());
        assert forall|i: int| 0 <= i < ps.len() implies comps.contains(#[trigger] ps[i]) by {
            if i < ps.len() - 1 {
                assert(ps[i] == ps.drop_last()[i]);
            }
        }
    }
}

proof fn lemma_entries_known(comps: Seq<Seq<char>>, es: Seq<DependencyView>)
    requires
        edges_error(comps, es) is None,
    ensures
        forall|i: int|
            0 <= i < es.len() ==> comps.contains((#[trigger] es[i]).0) && forall|j: int|
                0 <= j < es[i].1.len() ==> comps.contains(#[trigger] es[i].1[j]),
    decreases es.len(),
{
    if es.len() > 0 {
        lemma_entries_known(comps, es.drop_last());
        lemma_prereqs_known(es.last().0, comps, es.last().1);
        assert forall|i: int| 0 <= i < es.len() implies comps.contains((#[trigger] es[i]).0)
            && forall|j: int| 0 <= j < es[i].1.len() ==> comps.contains(#[trigger] es[i].1[j]) by {
            if i < es.len() - 1 {
                assert(es[i] == es.drop_last()[i]);
            }
        }
    }
}

/// Valid entries make a graph over known components.
proof fn lemma_blueprint_edges_known(b: &Blueprint)
    requires
        edges_error(b@.components, b@.dependency_entries) is None,
    ensures
        edges_known(b@.components, b@.dependencies),
{
    let es = b@.dependency_entries;
    lemma_entries_known(b@.components, es);
    assert forall|k: Seq<char>| #[trigger] b@.dependencies.contains_key(k) implies b@.components.contains(k)
        && forall|i: int| 0 <= i < b@.dependencies[k].len() ==> b@.components.contains(
        #[trigger] b@.dependencies[k][i],
    ) by {
        lemma_entries_map_value(b.dependencies.entries@, k);
        let x = choose|x: int|
            0 <= x < b.dependencies.entries@.len() && #[trigger] b.dependencies.entries@[x].key@ == k
                && b.dependencies.entries@[x].value.deep_view() == entries_map(
                b.dependencies.entries@,
            )[k];
        assert(es[x] == (k, b@.dependencies[k]));
        assert(b@.components.contains(es[x].0));
        assert forall|i: int| 0 <= i < b@.dependencies[k].len() implies b@.components.contains(
            #[trigger] b@.dependencies[k][i],
        ) by {
            assert(b@.dependencies[k][i] == es[x].1[i]);
        }
    }
}

/// Each prerequisite of an element of `done` comes earlier in `done`.
pub open spec fn ordered(done: Seq<Seq<char>>, d: Map<Seq<char>, Seq<Seq<char>>>) -> bool {
    forall|i: int, p: Seq<char>|
        0 <= i < done.len() && #[trigger] depends_on(d, done[i], p) ==> exists|j: int|
            0 <= j < i && done[j] == p
}

/// `x` depends on something not yet in `done`.
pub open spec fn blocked(d: Map<Seq<char>, Seq<Seq<char>>>, done: Seq<Seq<char>>, x: Seq<char>) -> bool {
    exists|p: Seq<char>| #[trigger] depends_on(d, x, p) && !done.contains(p)
}

/// Every component is in `done` or blocked.
pub open spec fn stuck(cs: Seq<Seq<char>>, d: Map<Seq<char>, Seq<Seq<char>>>, done: Seq<Seq<char>>) -> bool {
    forall|k: int| 0 <= k < cs.len() ==> done.contains(#[trigger] cs[k]) || blocked(d, done, cs[k])
}

/// Along a walk starting in `done`, positions in `done` strictly decrease.
proof fn lemma_descend(
    done: Seq<Seq<char>>,
    d: Map<Seq<char>, Seq<Seq<char>>>,
    w: Seq<Seq<char>>,
    i0: int,
    k: int,
)
    requires
        ordered(done, d),
        is_dependency_walk(d, w),
        0 <= k < w.len(),
        0 <= i0 < done.len(),
        done[i0] == w[0],
    ensures
        exists|j: int| 0 <= j <= i0 - k && done[j] == w[k],
    decreases k,
{
    if k > 0 {
        lemma_descend(done, d, w, i0, k - 1);
        let j = choose|j: int| 0 <= j <= i0 - (k - 1) && done[j] == w[k - 1];
        assert(depends_on(d, w[k - 1], w[k]));
        assert(depends_on(d, done[j], w[k]));
    } else {
        assert(done[i0] == w[0]);
    }
}

/// An ordering of all dependency keys without repeats rules out a cycle.
proof fn lemma_ordered_no_cycle(done: Seq<Seq<char>>, d: Map<Seq<char>, Seq<Seq<char>>>)
    requires
        done.no_duplicates(),
        ordered(done, d),
        forall|k: Seq<char>| #[trigger] d.contains_key(k) ==> done.contains(k),
    ensures
        !has_dependency_cycle(d),
{
    if has_dependency_cycle(d) {
        let w = choose|w: Seq<Seq<char>>| w.len() >= 2 && w[0] == w.last() && is_dependency_walk(d, w);
        assert(depends_on(d, w[0], w[1]));
        assert(d.contains_key(w[0]));
        let i0 = choose|i0: int| 0 <= i0 < done.len() && done[i0] == w[0];
        lemma_descend(done, d, w, i0, w.len() - 1);
        let j = choose|j: int| 0 <= j <= i0 - (w.len() - 1) && done[j] == w[w.len() - 1];
        assert(done[j] == done[i0]);
    }
}

/// A prerequisite of `x` that is not yet in `done`.
pub open spec fn pick(d: Map<Seq<char>, Seq<Seq<char>>>, done: Seq<Seq<char>>, x: Seq<char>) -> Seq<char> {
    choose|p: Seq<char>| #[trigger] depends_on(d, x, p) && !done.contains(p)
}

/// The walk that follows `pick` for `n` steps from `x`.
pub open spec fn chase(d: Map<Seq<char>, Seq<Seq<char>>>, done: Seq<Seq<char>>, x: Seq<char>, n: nat) -> Seq<
    Seq<char>,
>
    decreases n,
{
    if n == 0 {
        seq![x]
    } else {
        seq![x] + chase(d, done, pick(d, done, x), (n - 1) as nat)
    }
}

proof fn lemma_chase(
    cs: Seq<Seq<char>>,
    d: Map<Seq<char>, Seq<Seq<char>>>,
    done: Seq<Seq<char>>,
    x: Seq<char>,
    n: nat,
)
    requires
        cs.contains(x),
        !done.contains(x),
        stuck(cs, d, done),
        edges_known(cs, d),
    ensures
        chase(d, done, x, n).len() == n + 1,
        chase(d, done, x, n)[0] == x,
        forall|i: int|
            0 <= i < chase(d, done, x, n).len() ==> cs.contains(#[trigger] chase(d, done, x, n)[i]),
        is_dependency_walk(d, chase(d, done, x, n)),
    decreases n,
{
    if n > 0 {
        let k = choose|k: int| 0 <= k < cs.len() && cs[k] == x;
        assert(blocked(d, done, cs[k]));
        let p = pick(d, done, x);
        assert(depends_on(d, x, p) && !done.contains(p));
        assert(d.contains_key(x));
        let pi = choose|pi: int| 0 <= pi < d[x].len() && d[x][pi] == p;
        assert(cs.contains(d[x][pi]));
        lemma_chase(cs, d, done, p, (n - 1) as nat);
        let rest = chase(d, done, p, (n - 1) as nat);
        let w = chase(d, done, x, n);
        assert(w == seq![x] + rest);
        assert forall|i: int| 0 <= i < w.len() implies cs.contains(#[trigger] w[i]) by {
            if i > 0 {
                assert(w[i] == rest[i - 1]);
            }
        }
        assert forall|i: int| 0 <= i < w.len() - 1 implies depends_on(d, #[trigger] w[i], w[i + 1]) by {
            if i > 0 {
                assert(w[i] == rest[i - 1]);
                assert(w[i + 1] == rest[i]);
                assert(depends_on(d, rest[i - 1], rest[i]));
            }
        }
    }
}

/// Components that are all blocked outside `done` lie on a cycle.
proof fn lemma_stuck_cycle(
    cs: Seq<Seq<char>>,
    d: Map<Seq<char>, Seq<Seq<char>>>,
    done: Seq<Seq<char>>,
    x: Seq<char>,
)
    requires
        cs.contains(x),
        !done.contains(x),
        stuck(cs, d, done),
        edges_known(cs, d),
    ensures
        has_dependency_cycle(d),
{
    let w = chase(d, done, x, cs.len());
    lemma_chase(cs, d, done, x, cs.len());
    assert(w.to_set().subset_of(cs.to_set())) by {
        assert forall|y: Seq<char>| w.to_set().contains(y) implies cs.to_set().contains(y) by {
            let i = choose|i: int| 0 <= i < w.len() && w[i] == y;
            assert(cs.contains(w[i]));
        }
    }
    cs.lemma_cardinality_of_set();
    lemma_len_subset(w.to_set(), cs.to_set());
    if w.no_duplicates() {
        w.unique_seq_to_set();
        assert(false);
    }
    let (i, j) = choose|i: int, j: int| 0 <= i < w.len() && 0 <= j < w.len() && i != j && w[i] == w[j];
    let (a, z) = if i < j {
        (i, j)
    } else {
        (j, i)
    };
    let c = w.subrange(a, z + 1);
    assert(c.len() >= 2);
    assert(c[0] == c.last());
    assert forall|t: int| 0 <= t < c.len() - 1 implies depends_on(d, #[trigger] c[t], c[t + 1]) by {
        assert(c[t] == w[a + t]);
        assert(c[t + 1] == w[a + t + 1]);
    }
    assert(is_dependency_walk(d, c));
}

/// Whether every id of `ps` is in `done`.
fn all_contained(ps: &Vec<String>, done: &Vec<String>) -> (r: bool)
    ensures
        r == forall|i: int| 0 <= i < ps.len() ==> done.deep_view().contains(#[trigger] ps.deep_view()[i]),
{
    let mut i: usize = 0;
    while i < ps.len()
        invariant
            i <= ps.len(),
            forall|j: int| 0 <= j < i ==> done.deep_view().contains(#[trigger] ps.deep_view()[j]),
        decreases ps.len() - i,
    {
        if !contains_id(done, &ps[i]) {
            assert(!done.deep_view().contains(ps.deep_view()[i as int]));
            return false;
        }
        i = i + 1;
    }
    true
}

/// Whether the dependency graph of a blueprint, whose entries name only its
/// components, has a cycle. Components are taken in order, each once all the
/// components it depends on are taken; a cycle remains exactly when some
/// component can never be taken.
fn dependency_cycle(b: &Blueprint) -> (r: bool)
    requires
        edges_known(b@.components, b@.dependencies),
    ensures
        r == has_dependency_cycle(b@.dependencies),
{
    let ghost cs = b@.components;
    let ghost d = b@.dependencies;
    let mut done: Vec<String> = Vec::new();
    let mut progress = true;
    while progress
        invariant
            cs == b@.components,
            d == b@.dependencies,
            edges_known(cs, d),
            done.deep_view().no_duplicates(),
            forall|i: int| 0 <= i < done.len() ==> cs.contains(#[trigger] done.deep_view()[i]),
            done.len() <= cs.len(),
            ordered(done.deep_view(), d),
            !progress ==> stuck(cs, d, done.deep_view()),
        decreases 2 * (cs.len() - done.len()) + (if progress {
            1int
        } else {
            0int
        }),
    {
        progress = false;
        let ghost start = done.len();
        let mut k: usize = 0;
        while k < b.components.len()
            invariant
                cs == b@.components,
                d == b@.dependencies,
                edges_known(cs, d),
                k <= cs.len(),
                done.deep_view().no_duplicates(),
                forall|i: int| 0 <= i < done.len() ==> cs.contains(#[trigger] done.deep_view()[i]),
                done.len() <= cs.len(),
                ordered(done.deep_view(), d),
                done.len() >= start,
                progress ==> done.len() > start,
                !progress ==> done.len() == start,
                !progress ==> forall|j: int|
                    0 <= j < k ==> done.deep_view().contains(#[trigger] cs[j]) || blocked(
                        d,
                        done.deep_view(),
                        cs[j],
                    ),
            decreases cs.len() - k,
        {
            let c = &b.components[k];
            if !contains_id(&done, c) {
                let ready = match b.dependencies.get(c) {
                    None => true,
                    Some(ps) => all_contained(ps, &done),
                };
                let ghost dv = done.deep_view();
                proof {
                    assert(cs[k as int] == c@);
                    if ready {
                        assert forall|p: Seq<char>| #[trigger] depends_on(d, c@, p) implies dv.contains(p) by {
                            let pi = choose|pi: int| 0 <= pi < d[c@].len() && d[c@][pi] == p;
                            assert(dv.contains(d[c@][pi]));
                        }
                    } else {
                        let ps = b.dependencies@[c@];
                        let pi = choose|pi: int| 0 <= pi < ps.len() && !dv.contains(#[trigger] ps[pi]);
                        assert(depends_on(d, c@, ps[pi]));
                        assert(blocked(d, dv, cs[k as int]));
                    }
                }
                if ready {
                    proof {
                        assert(dv.to_set().subset_of(cs.to_set().remove(c@))) by {
                            assert forall|y: Seq<char>| dv.to_set().contains(y) implies cs.to_set().remove(
                                c@,
                            ).contains(y) by {
                                let i = choose|i: int| 0 <= i < dv.len() && dv[i] == y;
                                assert(cs.contains(dv[i]));
                            }
                        }
                        dv.unique_seq_to_set();
                        cs.lemma_cardinality_of_set();
                        lemma_len_subset(dv.to_set(), cs.to_set().remove(c@));
                    }
                    let c2 = c.clone();
                    done.push(c2);
                    proof {
                        let nv = done.deep_view();
                        assert(nv =~= dv.push(c@));
                        assert forall|i: int, p: Seq<char>|
                            0 <= i < nv.len() && #[trigger] depends_on(d, nv[i], p) implies exists|j: int|
                            0 <= j < i && nv[j] == p by {
                            if i < dv.len() {
                                assert(nv[i] == dv[i]);
                                assert(depends_on(d, dv[i], p));
                                let j = choose|j: int| 0 <= j < i && dv[j] == p;
                                assert(nv[j] == dv[j]);
                            } else {
                                assert(dv.contains(p));
                                let j = choose|j: int| 0 <= j < dv.len() && dv[j] == p;
                                assert(nv[j] == dv[j]);
                            }
                        }
                    }
                    progress = true;
                }
            }
            k = k + 1;
        }
    }
    let mut k: usize = 0;
    while k < b.components.len()
        invariant
            cs == b@.components,
            d == b@.dependencies,
            k <= cs.len(),
            stuck(cs, d, done.deep_view()),
            edges_known(cs, d),
            done.deep_view().no_duplicates(),
            ordered(done.deep_view(), d),
            forall|j: int| 0 <= j < k ==> done.deep_view().contains(#[trigger] cs[j]),
        decreases cs.len() - k,
    {
        if !contains_id(&done, &b.components[k]) {
            proof {
                lemma_stuck_cycle(cs, d, done.deep_view(), cs[k as int]);
            }
            return true;
        }
        k = k + 1;
    }
    proof {
        assert forall|x: Seq<char>| #[trigger] d.contains_key(x) implies done.deep_view().contains(x) by {
            let j = choose|j: int| 0 <= j < cs.len() && cs[j] == x;
            assert(done.deep_view().contains(cs[j]));
        }
        lemma_ordered_no_cycle(done.deep_view(), d);
    }
    false
}

/// Checks the dependency entries, then that the dependencies have no cycle.
pub fn validate_dependencies(b: &Blueprint) -> (r: Result<(), LedgerError>)
    ensures
        r == as_result(dependency_error(b@)),
{
    match check_edges(b) {
        Err(e) => return Err(e),
        Ok(()) => {},
    }
    proof {
        lemma_blueprint_edges_known(b);
    }
    if dependency_cycle(b) {
        Err(LedgerError::DependencyCycle)
    } else {
        Ok(())
    }
}

/// Checks a blueprint completely: texts, shape and ids, then dependencies.
pub fn check_blueprint(b: &Blueprint) -> (r: Result<(), LedgerError>)
    ensures
        r == as_result(blueprint_error(b@)),
{
    match valid(b) {
        Err(e) => Err(e),
        Ok(()) => validate_dependencies(b),
    }
}

} // verus!

verus! {

/// Bounded, pairwise distinct ids have no problem.
proof fn lemma_clean_ids_pass(v: Seq<Seq<char>>)
    requires
        forall|i: int| 0 <= i < v.len() ==> bounded(#[trigger] v[i], MAX_ID as nat),
        forall|i: int, j: int| 0 <= i < j < v.len() ==> #[trigger] v[i] != #[trigger] v[j],
    ensures
        ids_error(v) is None,
    decreases v.len(),
{
    if v.len() > 0 {
        let d = v.drop_last();
        assert forall|i: int, j: int| 0 <= i < j < d.len() implies #[trigger] d[i] != #[trigger] d[j] by {
            assert(d[i] == v[i] && d[j] == v[j]);
        }
        assert forall|i: int| 0 <= i < d.len() implies bounded(#[trigger] d[i], MAX_ID as nat) by {
            assert(d[i] == v[i]);
        }
        lemma_clean_ids_pass(d);
        assert(bounded(v[v.len() - 1], MAX_ID as nat));
        if d.contains(v.last()) {
            let i = choose|i: int| 0 <= i < d.len() && d[i] == v.last();
            assert(v[i] == v[v.len() - 1]);
        }
    }
}

/// Known, distinct prerequisites other than the component itself have no
/// problem.
proof fn lemma_clean_prereqs_pass(c: Seq<char>, comps: Seq<Seq<char>>, ps: Seq<Seq<char>>)
    requires
        forall|j: int| 0 <= j < ps.len() ==> comps.contains(#[trigger] ps[j]) && ps[j] != c,
        forall|i: int, j: int| 0 <= i < j < ps.len() ==> #[trigger] ps[i] != #[trigger] ps[j],
    ensures
        prereqs_error(c, comps, ps) is None,
    decreases ps.len(),
{
    if ps.len() > 0 {
        let d = ps.drop_last();
        assert forall|i: int, j: int| 0 <= i < j < d.len() implies #[trigger] d[i] != #[trigger] d[j] by {
            assert(d[i] == ps[i] && d[j] == ps[j]);
        }
        assert forall|j: int| 0 <= j < d.len() implies comps.contains(#[trigger] d[j]) && d[j] != c by {
            assert(d[j] == ps[j]);
        }
        lemma_clean_prereqs_pass(c, comps, d);
        assert(comps.contains(ps[ps.len() - 1]) && ps[ps.len() - 1] != c);
        if d.contains(ps.last()) {
            let i = choose|i: int| 0 <= i < d.len() && d[i] == ps.last();
            assert(ps[i] == ps[ps.len() - 1]);
        }
    }
}

/// Entries over known components whose prerequisites are known, distinct
/// and other than the component itself have no problem.
proof fn lemma_clean_entries_pass(comps: Seq<Seq<char>>, es: Seq<DependencyView>)
    requires
        forall|i: int|
            0 <= i < es.len() ==> comps.contains((#[trigger] es[i]).0) && (forall|j: int|
                0 <= j < es[i].1.len() ==> comps.contains(#[trigger] es[i].1[j]) && es[i].1[j] != es[i].0)
                && (forall|j: int, l: int| 0 <= j < l < es[i].1.len() ==> #[trigger] es[i].1[j] != #[trigger] es[i].1[l]),
    ensures
        edges_error(comps, es) is None,
    decreases es.len(),
{
    if es.len() > 0 {
        let d = es.drop_last();
        assert forall|i: int|
            0 <= i < d.len() implies comps.contains((#[trigger] d[i]).0) && (forall|j: int|
                0 <= j < d[i].1.len() ==> comps.contains(#[trigger] d[i].1[j]) && d[i].1[j] != d[i].0)
                && (forall|j: int, l: int| 0 <= j < l < d[i].1.len() ==> #[trigger] d[i].1[j] != #[trigger] d[i].1[l]) by {
            assert(d[i] == es[i]);
        }
        lemma_clean_entries_pass(comps, d);
        let e = es[es.len() - 1];
        assert(comps.contains(e.0));
        lemma_clean_prereqs_pass(e.0, comps, e.1);
    }
}

/// A blueprint is accepted when its objective and next action are
/// bounded, scaffold is its first layer, it has 1 to 64 components and 1 to
/// 16 layers, its component ids and layer ids are bounded and pairwise
/// distinct, each dependency entry names a known component and known,
/// distinct prerequisites other than itself, and no component depends on
/// itself through others.
pub proof fn law_clean_blueprint_accepted(b: BlueprintView)
    requires
        bounded(b.objective, MAX_TEXT as nat),
        bounded(b.next, MAX_TEXT as nat),
        1 <= b.components.len() <= MAX_COMPONENTS,
        1 <= b.layers.len() <= MAX_LAYERS,
        b.layers[0] == "scaffold"@,
        forall|i: int| 0 <= i < b.components.len() ==> bounded(#[trigger] b.components[i], MAX_ID as nat),
        forall|i: int| 0 <= i < b.layers.len() ==> bounded(#[trigger] b.layers[i], MAX_ID as nat),
        forall|i: int, j: int| 0 <= i < j < b.components.len() ==> #[trigger] b.components[i] != #[trigger] b.components[j],
        forall|i: int, j: int| 0 <= i < j < b.layers.len() ==> #[trigger] b.layers[i] != #[trigger] b.layers[j],
        forall|i: int|
            0 <= i < b.dependency_entries.len() ==> b.components.contains((#[trigger] b.dependency_entries[i]).0)
                && (forall|j: int|
                0 <= j < b.dependency_entries[i].1.len() ==> b.components.contains(
                    #[trigger] b.dependency_entries[i].1[j],
                ) && b.dependency_entries[i].1[j] != b.dependency_entries[i].0) && (forall|j: int, l: int|
                0 <= j < l < b.dependency_entries[i].1.len() ==> #[trigger] b.dependency_entries[i].1[j]
                    != #[trigger] b.dependency_entries[i].1[l]),
        !has_dependency_cycle(b.dependencies),
    ensures
        blueprint_error(b) is None,
{
    lemma_clean_ids_pass(b.components);
    lemma_clean_ids_pass(b.layers);
    lemma_clean_entries_pass(b.components, b.dependency_entries);
}

/// Prerequisites with no problem are distinct and other than the component.
proof fn lemma_prereqs_distinct(c: Seq<char>, comps: Seq<Seq<char>>, ps: Seq<Seq<char>>)
    requires
        prereqs_error(c, comps, ps) is None,
    ensures
        forall|j: int| 0 <= j < ps.len() ==> #[trigger] ps[j] != c,
        forall|i: int, j: int| 0 <= i < j < ps.len() ==> #[trigger] ps[i] != #[trigger] ps[j],
    decreases ps.len(),
{
    if ps.len() > 0 {
        let d = ps.drop_last();
        lemma_prereqs_distinct(c, comps, d);
        assert forall|j: int| 0 <= j < ps.len() implies #[trigger] ps[j] != c by {
            if j < ps.len() - 1 {
                assert(ps[j] == d[j]);
            }
        }
        assert forall|i: int, j: int| 0 <= i < j < ps.len() implies #[trigger] ps[i] != #[trigger] ps[j] by {
            if j == ps.len() - 1 {
                assert(d[i] == ps[i]);
                assert(!d.contains(ps.last()));
            } else {
                assert(d[i] == ps[i] && d[j] == ps[j]);
            }
        }
    }
}

/// Entries with no problem list distinct prerequisites other than their
/// component.
proof fn lemma_entries_distinct(comps: Seq<Seq<char>>, es: Seq<DependencyView>)
    requires
        edges_error(comps, es) is None,
    ensures
        forall|i: int|
            0 <= i < es.len() ==> (forall|j: int|
                0 <= j < (#[trigger] es[i]).1.len() ==> es[i].1[j] != es[i].0) && (forall|j: int, l: int|
                0 <= j < l < es[i].1.len() ==> #[trigger] es[i].1[j] != #[trigger] es[i].1[l]),
    decreases es.len(),
{
    if es.len() > 0 {
        let d = es.drop_last();
        lemma_entries_distinct(comps, d);
        lemma_prereqs_distinct(es.last().0, comps, es.last().1);
        assert forall|i: int|
            0 <= i < es.len() implies (forall|j: int|
                0 <= j < (#[trigger] es[i]).1.len() ==> es[i].1[j] != es[i].0) && (forall|j: int, l: int|
                0 <= j < l < es[i].1.len() ==> #[trigger] es[i].1[j] != #[trigger] es[i].1[l]) by {
            if i < es.len() - 1 {
                assert(es[i] == d[i]);
            }
        }
    }
}

} // verus!
