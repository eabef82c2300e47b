//! The ledger's transitions on a session record, each proved to follow its
//! step in `steps`.
use vstd::prelude::*;
use crate::ledger::blueprint::{bound, check_blueprint, component};
use crate::ledger::model::{
    CheckRefusal, CheckRefusalView, SessionView,
    first_index, fresh_session, is_text, issues_view, open_issue_of, layer_marks, lemma_first_index,
    lemma_first_index_at, marked, unmarked, Blueprint, Cursor, Field, Issue,
    IssueView, LedgerError, CheckKind, Receipt, ReceiptStatus, receipts_view, Phase, Revision, Session, SCHEMA, MAX_EVIDENCE, MAX_TEXT,
};
use crate::ledger::steps::{
    clear_range, in_range, incomplete_in, invalidated, retained_marks,
    revise_step, same_plan, advance_step, already_reserved, kind_error, record_step,
    reserve_step, running_receipt, changed_step, cursor_step, finish_step, issue_step, mark_step, plan_step,
    reset_step, dependents_of, edge_affected, every, next_only, prior_receipt, repeat_of, touched,
};
use crate::ledger::scope::{advance_flagged, clear_flagged, dependent_flags, edge_affected_flags, epoch, touched_flags};
use crate::table::{contains_id, lemma_entries_map_dom, Table};
use crate::text::{clone_ids, ids_eq, text_eq};

verus! {

/// The ids of `ids`, in order, that `m` has no entry for.
pub fn unmarked_of(ids: &Vec<String>, m: &Table<String>) -> (r: Vec<String>)
    ensures
        r.deep_view() == unmarked(ids.deep_view(), m@),
{
    let mut r: Vec<String> = Vec::new();
    let mut i: usize = 0;
    while i < ids.len()
        invariant
            i <= ids.len(),
            r.deep_view() == unmarked(ids.deep_view().take(i as int), m@),
        decreases ids.len() - i,
    {
        assert(ids.deep_view().take(i + 1).drop_last() =~= ids.deep_view().take(i as int));
        assert(ids.deep_view().take(i + 1).last() == ids@[i as int]@);
        if !m.contains_key(&ids[i]) {
            let ghost before = r.deep_view();
            r.push(ids[i].clone());
            assert(r.deep_view() =~= before.push(ids@[i as int]@));
        }
        i = i + 1;
    }
    assert(ids.deep_view().take(ids.len() as int) =~= ids.deep_view());
    r
}

/// Records evidence `e` for component `c` in layer `l`.
pub fn set_mark(marks: &mut Table<Table<String>>, l: String, c: String, e: String)
    ensures
        final(marks)@ == old(marks)@.insert(l@, layer_marks(old(marks)@, l@).insert(c@, e@)),
{
    let mut inner = match marks.take(&l) {
        Some(t) => t,
        None => Table::new(),
    };
    inner.insert(c, e);
    marks.insert(l, inner);
    assert(final(marks)@ =~= old(marks)@.insert(l@, layer_marks(old(marks)@, l@).insert(c@, e@)));
}

/// Whether every id of `ids` has an entry in `m`.
pub fn all_marked(ids: &Vec<String>, m: &Table<String>) -> (r: bool)
    ensures
        r == forall|i: int| 0 <= i < ids.len() ==> m@.contains_key(#[trigger] ids.deep_view()[i]),
{
    let mut i: usize = 0;
    while i < ids.len()
        invariant
            i <= ids.len(),
            forall|j: int| 0 <= j < i ==> m@.contains_key(#[trigger] ids.deep_view()[j]),
        decreases ids.len() - i,
    {
        if !m.contains_key(&ids[i]) {
            assert(!m@.contains_key(ids.deep_view()[i as int]));
            return false;
        }
        i = i + 1;
    }
    true
}

/// The first index of `x` in `ids`, if any.
pub fn position(ids: &Vec<String>, x: &String) -> (r: Option<usize>)
    ensures
        r matches Some(k) ==> first_index(ids.deep_view(), is_text(x@)) == Some(k as int),
        r is None ==> first_index(ids.deep_view(), is_text(x@)) is None,
        r matches Some(k) ==> k < ids.len(),
{
    let ghost p = is_text(x@);
    let mut i: usize = 0;
    while i < ids.len()
        invariant
            i <= ids.len(),
            p == is_text(x@),
            forall|j: int| 0 <= j < i ==> !p(#[trigger] ids.deep_view()[j]),
        decreases ids.len() - i,
    {
        if ids[i] == *x {
            proof {
                lemma_first_index_at(ids.deep_view(), p, i as int);
            }
            return Some(i);
        }
        i = i + 1;
    }
    proof {
        lemma_first_index(ids.deep_view(), p);
        if first_index(ids.deep_view(), p) is Some {
            let n = first_index(ids.deep_view(), p)->0;
            assert(p(ids.deep_view()[n]));
        }
    }
    None
}

/// The first unresolved issue for component `c`, if any.
pub fn first_open_issue(issues: &Vec<Issue>, c: &String) -> (r: Option<usize>)
    ensures
        r matches Some(k) ==> first_index(issues_view(issues@), open_issue_of(c@)) == Some(k as int),
        r is None ==> first_index(issues_view(issues@), open_issue_of(c@)) is None,
        r matches Some(k) ==> k < issues.len(),
{
    let ghost p = open_issue_of(c@);
    let ghost v = issues_view(issues@);
    let mut i: usize = 0;
    while i < issues.len()
        invariant
            i <= issues.len(),
            v == issues_view(issues@),
            p == open_issue_of(c@),
            forall|j: int| 0 <= j < i ==> !p(#[trigger] v[j]),
        decreases issues.len() - i,
    {
        assert(v[i as int] == issues@[i as int]@);
        if issues[i].component == *c && !issues[i].resolved {
            proof {
                lemma_first_index_at(v, p, i as int);
            }
            return Some(i);
        }
        i = i + 1;
    }
    proof {
        lemma_first_index(v, p);
        if first_index(v, p) is Some {
            let n = first_index(v, p)->0;
            assert(p(v[n]));
        }
    }
    None
}

/// Whether some issue is unresolved.
pub fn any_open_issue(issues: &Vec<Issue>) -> (r: bool)
    ensures
        r == crate::ledger::model::has_open_issue(issues_view(issues@)),
{
    let mut i: usize = 0;
    while i < issues.len()
        invariant
            i <= issues.len(),
            forall|j: int| 0 <= j < i ==> issues@[j].resolved,
        decreases issues.len() - i,
    {
        if !issues[i].resolved {
            assert(!issues_view(issues@)[i as int].resolved);
            return true;
        }
        i = i + 1;
    }
    proof {
        if crate::ledger::model::has_open_issue(issues_view(issues@)) {
            let j = choose|j: int| 0 <= j < issues_view(issues@).len() && !(#[trigger] issues_view(issues@)[j]).resolved;
            assert(issues@[j].resolved);
        }
    }
    false
}

/// Whether component `c` has an unresolved issue.
pub fn any_open_issue_for(issues: &Vec<Issue>, c: &String) -> (r: bool)
    ensures
        r == crate::ledger::model::has_open_issue_for(issues_view(issues@), c@),
{
    let r = first_open_issue(issues, c);
    proof {
        lemma_first_index(issues_view(issues@), open_issue_of(c@));
    }
    r.is_some()
}

/// A `String` holding `s`.
pub fn owned(s: &str) -> (r: String)
    ensures
        r@ == s@,
{
    s.to_owned()
}

/// Whether two dependency tables hold the same map.
pub fn deps_equal(a: &Table<Vec<String>>, b: &Table<Vec<String>>) -> (r: bool)
    ensures
        r == (a@ == b@),
{
    let mut i: usize = 0;
    while i < a.entries.len()
        invariant
            i <= a.entries.len(),
            forall|j: int|
                0 <= j < i ==> b@.contains_key(#[trigger] a.entries@[j].key@) && b@[a.entries@[j].key@]
                    == a@[a.entries@[j].key@],
        decreases a.entries.len() - i,
    {
        let k = &a.entries[i].key;
        proof {
            lemma_entries_map_dom(a.entries@, k@);
        }
        let av = a.get(k);
        match (av, b.get(k)) {
            (Some(x), Some(y)) => {
                if !ids_eq(x, y) {
                    return false;
                }
            },
            _ => {
                return false;
            },
        }
        i = i + 1;
    }
    let mut j: usize = 0;
    while j < b.entries.len()
        invariant
            j <= b.entries.len(),
            forall|t: int| 0 <= t < j ==> a@.contains_key(#[trigger] b.entries@[t].key@),
        decreases b.entries.len() - j,
    {
        if !a.contains_key(&b.entries[j].key) {
            proof {
                lemma_entries_map_dom(b.entries@, b.entries@[j as int].key@);
            }
            return false;
        }
        j = j + 1;
    }
    proof {
        assert forall|k: Seq<char>| a@.contains_key(k) <==> b@.contains_key(k) by {
            lemma_entries_map_dom(a.entries@, k);
            lemma_entries_map_dom(b.entries@, k);
            if a@.contains_key(k) {
                let t = choose|t: int| 0 <= t < a.entries@.len() && #[trigger] a.entries@[t].key@ == k;
                assert(b@.contains_key(a.entries@[t].key@));
            }
            if b@.contains_key(k) {
                let t = choose|t: int| 0 <= t < b.entries@.len() && #[trigger] b.entries@[t].key@ == k;
                assert(a@.contains_key(b.entries@[t].key@));
            }
        }
        assert forall|k: Seq<char>| a@.contains_key(k) implies a@[k] == b@[k] by {
            lemma_entries_map_dom(a.entries@, k);
            let t = choose|t: int| 0 <= t < a.entries@.len() && #[trigger] a.entries@[t].key@ == k;
            assert(b@[a.entries@[t].key@] == a@[a.entries@[t].key@]);
        }
        assert(a@ =~= b@);
    }
    true
}

/// Whether two blueprints say the same.
pub fn same_blueprint(a: &Blueprint, b: &Blueprint) -> (r: bool)
    ensures
        r == same_plan(a@, b@),
{
    a.objective == b.objective && ids_eq(&a.components, &b.components) && ids_eq(
        &a.layers,
        &b.layers,
    ) && a.next == b.next && deps_equal(&a.dependencies, &b.dependencies)
}

/// Whether two blueprints differ at most in their next action.
pub fn next_unchanged(a: &Blueprint, b: &Blueprint) -> (r: bool)
    ensures
        r == next_only(a@, b@),
{
    a.objective == b.objective && ids_eq(&a.components, &b.components) && ids_eq(&a.layers, &b.layers)
        && deps_equal(&a.dependencies, &b.dependencies)
}

/// Clears component `c` from each layer of `layers[i..]`.
pub fn clear_from(marks: &mut Table<Table<String>>, layers: &Vec<String>, i: usize, c: &String)
    requires
        i <= layers.len(),
    ensures
        final(marks)@ == clear_range(old(marks)@, layers.deep_view(), i as int, layers.len() as int, c@),
{
    let ghost m0 = marks@;
    let ghost ls = layers.deep_view();
    let mut j: usize = i;
    assert(marks@ =~= clear_range(m0, ls, i as int, i as int, c@));
    while j < layers.len()
        invariant
            i <= j <= layers.len(),
            ls == layers.deep_view(),
            marks@ == clear_range(m0, ls, i as int, j as int, c@),
        decreases layers.len() - j,
    {
        let x = &layers[j];
        let ghost before = marks@;
        let mut inner = match marks.take(x) {
            Some(t) => t,
            None => Table::new(),
        };
        inner.remove(c);
        marks.insert(x.clone(), inner);
        proof {
            let next = clear_range(m0, ls, i as int, j + 1, c@);
            assert(ls[j as int] == x@);
            assert forall|l: Seq<char>| #[trigger] marks@.contains_key(l) <==> next.contains_key(l) by {
                if l != x@ {
                    if in_range(ls, i as int, j + 1, l) {
                        let k = choose|k: int| i <= k < j + 1 && ls[k] == l;
                        assert(in_range(ls, i as int, j as int, l));
                    }
                }
            }
            assert forall|l: Seq<char>| #[trigger] marks@.contains_key(l) implies marks@[l] == next[l] by {
                if l == x@ {
                    assert(in_range(ls, i as int, j + 1, l));
                    if in_range(ls, i as int, j as int, l) {
                        assert(layer_marks(before, l) == layer_marks(m0, l).remove(c@));
                        assert(layer_marks(m0, l).remove(c@).remove(c@) =~= layer_marks(m0, l).remove(c@));
                    } else {
                        assert(layer_marks(before, l) =~= layer_marks(m0, l));
                    }
                } else {
                    if in_range(ls, i as int, j + 1, l) {
                        let k = choose|k: int| i <= k < j + 1 && ls[k] == l;
                        assert(in_range(ls, i as int, j as int, l));
                    }
                    if in_range(ls, i as int, j as int, l) {
                        assert(in_range(ls, i as int, j + 1, l));
                    }
                }
            }
            assert(marks@ =~= next);
        }
        j = j + 1;
    }
}

/// Applies the invalidations in order: each clears its component and the
/// components that depend on it from its layer onward.
pub fn apply_invalidations(
    marks: &mut Table<Table<String>>,
    prior: &Blueprint,
    nb: &Blueprint,
    inv: &Vec<crate::ledger::model::Invalidation>,
)
    ensures
        final(marks)@ == invalidated(
            old(marks)@,
            prior@,
            nb@,
            inv@.map_values(|i: crate::ledger::model::Invalidation| (i.component@, i.layer@)),
        ),
{
    let ghost m0 = marks@;
    let ghost iv = inv@.map_values(|i: crate::ledger::model::Invalidation| (i.component@, i.layer@));
    let mut k: usize = 0;
    assert(iv.take(0) =~= Seq::<(Seq<char>, Seq<char>)>::empty());
    while k < inv.len()
        invariant
            k <= inv.len(),
            iv == inv@.map_values(|i: crate::ledger::model::Invalidation| (i.component@, i.layer@)),
            marks@ == invalidated(m0, prior@, nb@, iv.take(k as int)),
        decreases inv.len() - k,
    {
        assert(iv.take(k + 1).drop_last() =~= iv.take(k as int));
        assert(iv.take(k + 1).last() == (inv@[k as int].component@, inv@[k as int].layer@));
        match position(&nb.layers, &inv[k].layer) {
            None => {},
            Some(i) => {
                proof {
                    lemma_first_index(nb.layers.deep_view(), is_text(inv@[k as int].layer@));
                }
                let f = dependent_flags(prior, nb, &inv[k].component);
                clear_flagged(marks, &nb.layers, i, &nb.components, &f, Ghost(dependents_of(prior@, nb@, inv@[k as int].component@)));
            },
        }
        k = k + 1;
    }
    assert(iv.take(inv.len() as int) =~= iv);
}

/// The first layer of `layers` with a component of `comps` lacking evidence.
pub fn first_incomplete_layer(layers: &Vec<String>, comps: &Vec<String>, marks: &Table<Table<String>>) -> (r: Option<usize>)
    ensures
        r matches Some(k) ==> first_index(layers.deep_view(), incomplete_in(comps.deep_view(), marks@)) == Some(k as int),
        r is None ==> first_index(layers.deep_view(), incomplete_in(comps.deep_view(), marks@)) is None,
        r matches Some(k) ==> k < layers.len(),
{
    let ghost p = incomplete_in(comps.deep_view(), marks@);
    let mut i: usize = 0;
    while i < layers.len()
        invariant
            i <= layers.len(),
            p == incomplete_in(comps.deep_view(), marks@),
            forall|j: int| 0 <= j < i ==> !p(#[trigger] layers.deep_view()[j]),
        decreases layers.len() - i,
    {
        let l = &layers[i];
        let complete = match marks.get(l) {
            Some(m) => all_marked(comps, m),
            None => comps.len() == 0,
        };
        proof {
            assert(layers.deep_view()[i as int] == l@);
            if complete {
                assert forall|t: int| 0 <= t < comps.len() implies marked(marks@, l@, #[trigger] comps.deep_view()[t]) by {
                    assert(marks@.contains_key(l@));
                }
            } else {
                if marks@.contains_key(l@) {
                    let t = choose|t: int| 0 <= t < comps.len() && !marks@[l@].contains_key(#[trigger] comps.deep_view()[t]);
                    assert(!marked(marks@, l@, comps.deep_view()[t]));
                } else {
                    assert(!marked(marks@, l@, comps.deep_view()[0]));
                }
            }
        }
        if !complete {
            proof {
                lemma_first_index_at(layers.deep_view(), p, i as int);
            }
            return Some(i);
        }
        i = i + 1;
    }
    proof {
        lemma_first_index(layers.deep_view(), p);
        if first_index(layers.deep_view(), p) is Some {
            let n = first_index(layers.deep_view(), p)->0;
            assert(p(layers.deep_view()[n]));
        }
    }
    None
}

/// Whether two optional ids are the same.
fn same_scope(a: &Option<String>, b: &Option<String>) -> (r: bool)
    ensures
        r == (a.deep_view() == b.deep_view()),
{
    match (a, b) {
        (Some(x), Some(y)) => *x == *y,
        (None, None) => true,
        _ => false,
    }
}

/// The first running receipt of this kind, command and scope at generation `g`.
pub fn find_running(receipts: &Vec<Receipt>, g: u64, kind: CheckKind, hash: &String, component: &Option<String>) -> (r: Option<usize>)
    ensures
        r matches Some(k) ==> k < receipts.len() && first_index(receipts_view(receipts@), running_receipt(g, kind, hash@, component.deep_view())) == Some(k as int),
        r is None ==> first_index(receipts_view(receipts@), running_receipt(g, kind, hash@, component.deep_view())) is None,
{
    let ghost p = running_receipt(g, kind, hash@, component.deep_view());
    let ghost rv = receipts_view(receipts@);
    let mut i: usize = 0;
    while i < receipts.len()
        invariant
            i <= receipts.len(),
            rv == receipts_view(receipts@),
            p == running_receipt(g, kind, hash@, component.deep_view()),
            forall|j: int| 0 <= j < i ==> !p(#[trigger] rv[j]),
        decreases receipts.len() - i,
    {
        assert(rv[i as int] == receipts@[i as int]@);
        let x = &receipts[i];
        if x.generation == g && x.kind == kind && x.argv_sha256 == *hash && same_scope(&x.component, component)
            && x.status == ReceiptStatus::Running {
            proof {
                lemma_first_index_at(rv, p, i as int);
            }
            return Some(i);
        }
        i = i + 1;
    }
    proof {
        lemma_first_index(rv, p);
        if first_index(rv, p) is Some {
            let n = first_index(rv, p)->0;
            assert(p(rv[n]));
        }
    }
    None
}

impl Session {
    /// A session with no plan.
    pub fn empty(id: String) -> (s: Session)
        ensures
            s@ == fresh_session(id@, 0, 0),
    {
        Session {
            schema: SCHEMA,
            session_id: id,
            phase: Phase::Blueprint,
            generation: 0,
            blueprint: None,
            cursor: Cursor {
                layer: None,
                incomplete_components: Vec::new(),
                next: owned("plan a blueprint"),
            },
            marks: Table::new(),
            issues: Vec::new(),
            receipts: Vec::new(),
            proof_generation: None,
            revision: 0,
            input_epochs: Table::new(),
        }
    }

    /// Whether a stored record is a current-schema record of session `id`.
    pub fn is_record_of(&self, id: &str) -> (r: bool)
        ensures
            r == (self@.schema == SCHEMA && self@.session_id == id@),
    {
        self.schema == SCHEMA && text_eq(self.session_id.as_str(), id)
    }

    /// A guarded write names the revision it was written against: it goes
    /// ahead only when that is the current revision (or none is named).
    pub fn check_revision(&self, expected: Option<u64>) -> (r: Result<(), LedgerError>)
        ensures
            r == (match expected {
                Some(n) => if n == self@.revision {
                    Ok::<(), LedgerError>(())
                } else {
                    Err(LedgerError::StaleRevision)
                },
                None => Ok(()),
            }),
    {
        match expected {
            Some(n) => if n == self.revision {
                Ok(())
            } else {
                Err(LedgerError::StaleRevision)
            },
            None => Ok(()),
        }
    }

    /// Loads a blueprint, starting the build at its first layer.
    pub fn plan(&mut self, b: Blueprint) -> (r: Result<(), LedgerError>)
        ensures
            match plan_step(old(self)@, b@) {
                Ok(t) => r is Ok && final(self)@ == t,
                Err(e) => r == Err::<(), LedgerError>(e) && final(self)@ == old(self)@,
            },
    {
        match check_blueprint(&b) {
            Err(e) => return Err(e),
            Ok(()) => {},
        }
        if self.blueprint.is_some() {
            return Err(LedgerError::BlueprintExists);
        }
        self.phase = Phase::Build;
        self.cursor = Cursor {
            layer: Some(b.layers[0].clone()),
            incomplete_components: clone_ids(&b.components),
            next: b.next.clone(),
        };
        self.blueprint = Some(b);
        self.revision = 1;
        Ok(())
    }

    /// Records the exact next action.
    pub fn cursor(&mut self, t: String) -> (r: Result<(), LedgerError>)
        ensures
            match cursor_step(old(self)@, t@) {
                Ok(v) => r is Ok && final(self)@ == v,
                Err(e) => r == Err::<(), LedgerError>(e) && final(self)@ == old(self)@,
            },
    {
        match bound(t.as_str(), MAX_TEXT, Field::Cursor) {
            Err(e) => return Err(e),
            Ok(()) => {},
        }
        if self.blueprint.is_none() {
            return Err(LedgerError::NoBlueprint);
        }
        self.cursor.next = t;
        Ok(())
    }

    /// Marks a component complete in the current layer (build), or resolves
    /// its open issue (repair).
    pub fn mark(&mut self, c: &String, e: &String) -> (r: Result<(), LedgerError>)
        ensures
            match mark_step(old(self)@, c@, e@) {
                Ok(v) => r is Ok && final(self)@ == v,
                Err(x) => r == Err::<(), LedgerError>(x) && final(self)@ == old(self)@,
            },
    {
        match bound(e.as_str(), MAX_EVIDENCE, Field::Evidence) {
            Err(x) => return Err(x),
            Ok(()) => {},
        }
        let b = match &self.blueprint {
            None => return Err(LedgerError::NoBlueprint),
            Some(b) => b,
        };
        match component(b, c) {
            Err(x) => return Err(x),
            Ok(()) => {},
        }
        if self.phase == Phase::Build {
            let l = match &self.cursor.layer {
                None => return Err(LedgerError::LayerMissing),
                Some(l) => l.clone(),
            };
            set_mark(&mut self.marks, l.clone(), c.clone(), e.clone());
            let incomplete = match self.marks.get(&l) {
                Some(m) => unmarked_of(&b.components, m),
                None => clone_ids(&b.components),
            };
            self.cursor.incomplete_components = incomplete;
            assert(self@ =~= mark_step(old(self)@, c@, e@)->Ok_0);
            Ok(())
        } else if self.phase == Phase::Repair {
            match first_open_issue(&self.issues, c) {
                None => Err(LedgerError::NoOpenIssueForComponent),
                Some(k) => {
                    let ghost before = self.issues@;
                    let mut it = self.issues.remove(k);
                    it.resolved = true;
                    self.issues.insert(k, it);
                    assert(self.issues@ =~= before.update(k as int, self.issues@[k as int]));
                    assert(issues_view(self.issues@) =~= issues_view(before).update(
                        k as int,
                        IssueView { resolved: true, ..issues_view(before)[k as int] },
                    ));
                    set_mark(&mut self.marks, owned("repair"), c.clone(), e.clone());
                    assert(self@ =~= mark_step(old(self)@, c@, e@)->Ok_0);
                    Ok(())
                },
            }
        } else {
            Err(LedgerError::MarkPhase)
        }
    }

    /// Moves on: to the next layer once the current one is complete, to proof
    /// after the last layer, or from repair back to proof once every issue is resolved.
    pub fn advance(&mut self) -> (r: Result<(), LedgerError>)
        ensures
            match advance_step(old(self)@) {
                Ok(v) => r is Ok && final(self)@ == v,
                Err(x) => r == Err::<(), LedgerError>(x) && final(self)@ == old(self)@,
            },
    {
        let b = match &self.blueprint {
            None => return Err(LedgerError::NoBlueprint),
            Some(b) => b,
        };
        if self.phase == Phase::Repair {
            if any_open_issue(&self.issues) {
                return Err(LedgerError::OpenIssuesRemain);
            }
            self.phase = Phase::Proof;
            self.cursor.next = owned("run a whole check for final confirmation");
            assert(self@ =~= advance_step(old(self)@)->Ok_0);
            return Ok(());
        }
        if self.phase != Phase::Build {
            return Err(LedgerError::AdvancePhase);
        }
        let l = match &self.cursor.layer {
            None => return Err(LedgerError::LayerMissing),
            Some(l) => l.clone(),
        };
        let complete = match self.marks.get(&l) {
            Some(m) => all_marked(&b.components, m),
            None => b.components.len() == 0,
        };
        proof {
            let bv = b@;
            if complete {
                assert forall|i: int| 0 <= i < bv.components.len() implies marked(
                    self@.marks,
                    l@,
                    #[trigger] bv.components[i],
                ) by {
                    assert(self.marks@.contains_key(l@));
                }
            } else {
                if self.marks@.contains_key(l@) {
                    let i = choose|i: int|
                        0 <= i < b.components.len() && !self.marks@[l@].contains_key(
                            #[trigger] b.components.deep_view()[i],
                        );
                    assert(!marked(self@.marks, l@, bv.components[i]));
                } else {
                    assert(!marked(self@.marks, l@, bv.components[0]));
                }
            }
        }
        if !complete {
            return Err(LedgerError::IncompleteLayer);
        }
        let n = match position(&b.layers, &l) {
            None => return Err(LedgerError::InvalidLayer),
            Some(n) => n,
        };
        proof {
            lemma_first_index(b@.layers, is_text(l@));
        }
        if n + 1 == b.layers.len() {
            self.phase = Phase::Proof;
            self.cursor = Cursor {
                layer: None,
                incomplete_components: Vec::new(),
                next: owned("run a whole check"),
            };
        } else {
            self.cursor = Cursor {
                layer: Some(b.layers[n + 1].clone()),
                incomplete_components: clone_ids(&b.components),
                next: b.next.clone(),
            };
        }
        assert(self@ =~= advance_step(old(self)@)->Ok_0);
        Ok(())
    }

    /// Opens a repair issue for a component.
    pub fn issue(&mut self, c: &String, reason: String) -> (r: Result<(), LedgerError>)
        ensures
            match issue_step(old(self)@, c@, reason@) {
                Ok(v) => r is Ok && final(self)@ == v,
                Err(x) => r == Err::<(), LedgerError>(x) && final(self)@ == old(self)@,
            },
    {
        match bound(reason.as_str(), MAX_TEXT, Field::Reason) {
            Err(x) => return Err(x),
            Ok(()) => {},
        }
        let b = match &self.blueprint {
            None => return Err(LedgerError::NoBlueprint),
            Some(b) => b,
        };
        match component(b, c) {
            Err(x) => return Err(x),
            Ok(()) => {},
        }
        if self.phase != Phase::Proof && self.phase != Phase::Repair {
            return Err(LedgerError::IssuePhase);
        }
        if any_open_issue_for(&self.issues, c) {
            return Err(LedgerError::IssueAlreadyOpen);
        }
        let ghost before = self.issues@;
        self.issues.push(Issue { component: c.clone(), reason, resolved: false });
        assert(issues_view(self.issues@) =~= issues_view(before).push(
            IssueView { component: c@, reason: reason@, resolved: false },
        ));
        self.phase = Phase::Repair;
        self.proof_generation = None;
        assert(self@ =~= issue_step(old(self)@, c@, reason@)->Ok_0);
        Ok(())
    }

    /// Records a declared change of inputs: the next generation, no proof.
    pub fn changed(&mut self, reason: String) -> (r: Result<(), LedgerError>)
        requires
            old(self).generation < u64::MAX,
        ensures
            match changed_step(old(self)@, reason@) {
                Ok(v) => r is Ok && final(self)@ == v,
                Err(x) => r == Err::<(), LedgerError>(x) && final(self)@ == old(self)@,
            },
    {
        match bound(reason.as_str(), MAX_TEXT, Field::Reason) {
            Err(x) => return Err(x),
            Ok(()) => {},
        }
        if self.blueprint.is_none() {
            return Err(LedgerError::NoBlueprint);
        }
        self.generation = self.generation + 1;
        self.proof_generation = None;
        let comps = match &self.blueprint {
            Some(b) => clone_ids(&b.components),
            None => Vec::new(),
        };
        let mut all: Vec<bool> = Vec::new();
        let mut i: usize = 0;
        while i < comps.len()
            invariant
                i <= comps.len(),
                all.len() == i,
                forall|j: int| 0 <= j < i ==> all@[j],
            decreases comps.len() - i,
        {
            all.push(true);
            i = i + 1;
        }
        advance_flagged(&mut self.input_epochs, &comps, &all, Ghost(every()));
        if self.phase == Phase::Complete {
            self.phase = Phase::Proof;
            self.cursor.next = owned("run a whole check after the declared change");
        }
        assert(self@ =~= changed_step(old(self)@, reason@)->Ok_0);
        Ok(())
    }

    /// Completes a project whose proof holds at the current generation.
    pub fn finish(&mut self) -> (r: Result<(), LedgerError>)
        ensures
            match finish_step(old(self)@) {
                Ok(v) => r is Ok && final(self)@ == v,
                Err(x) => r == Err::<(), LedgerError>(x) && final(self)@ == old(self)@,
            },
    {
        if self.phase != Phase::Proof || self.proof_generation != Some(self.generation) {
            return Err(LedgerError::FinishNotReady);
        }
        self.phase = Phase::Complete;
        assert(self@ =~= finish_step(old(self)@)->Ok_0);
        Ok(())
    }

    /// Starts over with no plan, one generation and one revision further on.
    pub fn reset(&mut self, reason: String) -> (r: Result<(), LedgerError>)
        requires
            old(self).generation < u64::MAX,
        ensures
            match reset_step(old(self)@, reason@) {
                Ok(v) => r is Ok && final(self)@ == v,
                Err(x) => r == Err::<(), LedgerError>(x) && final(self)@ == old(self)@,
            },
    {
        match bound(reason.as_str(), MAX_TEXT, Field::ResetReason) {
            Err(x) => return Err(x),
            Ok(()) => {},
        }
        let generation = self.generation + 1;
        let revision = if self.revision == u64::MAX {
            self.revision
        } else {
            self.revision + 1
        };
        let id = self.session_id.clone();
        *self = Session::empty(id);
        self.generation = generation;
        self.revision = revision;
        assert(self@ =~= reset_step(old(self)@, reason@)->Ok_0);
        Ok(())
    }

    /// Amends the plan under an optimistic revision guard.
    pub fn revise(&mut self, q: Revision) -> (r: Result<(), LedgerError>)
        requires
            old(self).generation < u64::MAX,
        ensures
            match revise_step(old(self)@, q@) {
                Ok(v) => r is Ok && final(self)@ == v,
                Err(x) => r == Err::<(), LedgerError>(x) && final(self)@ == old(self)@,
            },
    {
        match check_blueprint(&q.blueprint) {
            Err(x) => return Err(x),
            Ok(()) => {},
        }
        if self.revision != q.expected_revision {
            return Err(LedgerError::StaleRevision);
        }
        let prior = match &self.blueprint {
            None => return Err(LedgerError::NoBlueprint),
            Some(p) => p,
        };
        if same_blueprint(prior, &q.blueprint) && q.invalidate.len() == 0 {
            return Ok(());
        }
        match bound(q.reason.as_str(), MAX_TEXT, Field::Reason) {
            Err(x) => return Err(x),
            Ok(()) => {},
        }
        let ghost qv = q@;
        let nb = q.blueprint;
        self.revision = if self.revision == u64::MAX {
            self.revision
        } else {
            self.revision + 1
        };
        if next_unchanged(prior, &nb) && q.invalidate.len() == 0 {
            self.cursor.next = nb.next.clone();
            self.blueprint = Some(nb);
            assert(self@.cursor =~= revise_step(old(self)@, qv)->Ok_0.cursor);
            assert(self@ =~= revise_step(old(self)@, qv)->Ok_0);
            return Ok(());
        }
        self.marks.retain_keys(&nb.layers);
        self.marks.retain_inner_keys(&nb.components);
        assert(self.marks@ =~= retained_marks(old(self)@.marks, nb@));
        let ef = edge_affected_flags(prior, &nb);
        clear_flagged(&mut self.marks, &nb.layers, 0, &nb.components, &ef, Ghost(edge_affected(prior@, nb@)));
        apply_invalidations(&mut self.marks, prior, &nb, &q.invalidate);
        let tf = touched_flags(prior, &nb, &q.invalidate);
        advance_flagged(&mut self.input_epochs, &nb.components, &tf, Ghost(touched(prior@, nb@, qv.invalidate)));
        self.generation = self.generation + 1;
        self.proof_generation = None;
        match first_incomplete_layer(&nb.layers, &nb.components, &self.marks) {
            Some(i) => {
                let l = nb.layers[i].clone();
                let incomplete = match self.marks.get(&l) {
                    Some(m) => unmarked_of(&nb.components, m),
                    None => unmarked_of(&nb.components, &Table::new()),
                };
                self.phase = Phase::Build;
                self.cursor = Cursor {
                    layer: Some(l),
                    incomplete_components: incomplete,
                    next: nb.next.clone(),
                };
            },
            None => {
                if any_open_issue(&self.issues) {
                    self.phase = Phase::Repair;
                } else {
                    self.phase = Phase::Proof;
                    self.cursor.next = owned("run a whole check");
                }
            },
        }
        self.blueprint = Some(nb);
        assert(self@.marks == revise_step(old(self)@, qv)->Ok_0.marks);
        assert(self@.cursor =~= revise_step(old(self)@, qv)->Ok_0.cursor);
        assert(self@ =~= revise_step(old(self)@, qv)->Ok_0);
        Ok(())
    }

    /// Reserves a check run, optionally scoped to a component: a running
    /// receipt at the current generation (and, scoped, at the component's
    /// input epoch), whose generation is handed back. A repeat on unchanged
    /// inputs is refused with the earlier receipt and the cursor.
    pub fn reserve_check(&mut self, kind: CheckKind, label: &String, hash: &String, component: &Option<String>) -> (r:
        Result<u64, CheckRefusal>)
        ensures
            match reserve_step(old(self)@, kind, label@, hash@, component.deep_view()) {
                Ok(v) => r matches Ok(g) && g == old(self).generation && final(self)@ == v,
                Err(x) => final(self)@ == old(self)@ && if x == LedgerError::CheckAlreadyReserved {
                    r matches Err(f) && f@ == CheckRefusalView::Repeated {
                        prior: prior_receipt(old(self)@, kind, hash@, component.deep_view())->0,
                        cursor: old(self)@.cursor,
                    } && prior_receipt(old(self)@, kind, hash@, component.deep_view()) is Some
                } else {
                    r matches Err(f) && f@ == CheckRefusalView::Refused(x)
                },
            },
    {
        let ghost cv = component.deep_view();
        let comps = match &self.blueprint {
            None => return Err(CheckRefusal::Refused(LedgerError::NoBlueprint)),
            Some(b) => &b.components,
        };
        if kind == CheckKind::Whole && component.is_some() {
            return Err(CheckRefusal::Refused(LedgerError::WholeComponent));
        }
        let scope_epoch = match component {
            Some(c) => {
                if !contains_id(comps, c) {
                    return Err(CheckRefusal::Refused(LedgerError::UnknownComponent));
                }
                epoch(&self.input_epochs, c)
            },
            None => 0,
        };
        if kind == CheckKind::Smoke && self.phase != Phase::Build {
            return Err(CheckRefusal::Refused(LedgerError::SmokePhase));
        }
        if kind == CheckKind::Whole && self.phase != Phase::Proof {
            return Err(CheckRefusal::Refused(LedgerError::WholePhase));
        }
        if kind == CheckKind::Narrow && (self.phase != Phase::Repair || !any_open_issue(
            &self.issues,
        )) {
            return Err(CheckRefusal::Refused(LedgerError::NarrowPhase));
        }
        assert(kind_error(self@, kind) is None);
        let ghost p = repeat_of(self@, kind, hash@, cv);
        let mut i: usize = 0;
        while i < self.receipts.len()
            invariant
                i <= self.receipts.len(),
                self@ == old(self)@,
                cv == component.deep_view(),
                p == repeat_of(self@, kind, hash@, cv),
                scope_epoch == crate::ledger::steps::scope_epoch(self@, cv),
                !(kind == CheckKind::Whole && cv is Some),
                cv matches Some(c) ==> self@.blueprint->0.components.contains(c),
                kind_error(self@, kind) is None,
                self@.blueprint is Some,
                forall|j: int| 0 <= j < i ==> !p(#[trigger] self@.receipts[j]),
            decreases self.receipts.len() - i,
        {
            let x = &self.receipts[i];
            assert(self@.receipts[i as int] == x@);
            let same = x.kind == kind && x.argv_sha256 == *hash && same_scope(&x.component, component) && match component {
                None => x.generation == self.generation,
                Some(_) => x.epoch == scope_epoch,
            };
            if same {
                proof {
                    assert(p(self@.receipts[i as int]));
                    lemma_first_index_at(self@.receipts, p, i as int);
                    assert(already_reserved(old(self)@, kind, hash@, cv));
                    assert(prior_receipt(old(self)@, kind, hash@, cv) == Some(self@.receipts[i as int]));
                }
                let prior = x.duplicate();
                let cursor = self.cursor.duplicate();
                assert(reserve_step(old(self)@, kind, label@, hash@, cv) == Err::<SessionView, LedgerError>(
                    LedgerError::CheckAlreadyReserved,
                ));
                let refusal = CheckRefusal::Repeated { prior, cursor };
                assert(refusal@ == CheckRefusalView::Repeated {
                    prior: prior_receipt(old(self)@, kind, hash@, cv)->0,
                    cursor: old(self)@.cursor,
                });
                return Err(refusal);
            }
            i = i + 1;
        }
        assert(!already_reserved(old(self)@, kind, hash@, cv));
        let g = self.generation;
        let ghost before = self.receipts@;
        let scope = match component {
            Some(c) => Some(c.clone()),
            None => None,
        };
        self.receipts.push(
            Receipt {
                kind,
                label: label.clone(),
                argv_sha256: hash.clone(),
                generation: g,
                status: ReceiptStatus::Running,
                exit_code: None,
                component: scope,
                epoch: scope_epoch,
            },
        );
        assert(receipts_view(self.receipts@) =~= receipts_view(before).push(
            self.receipts@[before.len() as int]@,
        ));
        assert(self@ =~= reserve_step(old(self)@, kind, label@, hash@, cv)->Ok_0);
        Ok(g)
    }

    /// Settles the running receipt of a check of this scope reserved at
    /// generation `g`.
    pub fn record_check(
        &mut self,
        g: u64,
        kind: CheckKind,
        hash: &String,
        component: &Option<String>,
        ok: bool,
        code: i32,
    ) -> (r: Result<(), LedgerError>)
        ensures
            match record_step(old(self)@, g, kind, hash@, component.deep_view(), ok, code) {
                Ok(v) => r is Ok && final(self)@ == v,
                Err(x) => r == Err::<(), LedgerError>(x) && final(self)@ == old(self)@,
            },
    {
        let k = match find_running(&self.receipts, g, kind, hash, component) {
            None => return Err(LedgerError::ReceiptLost),
            Some(k) => k,
        };
        let ghost before = self.receipts@;
        let mut it = self.receipts.remove(k);
        it.status = if ok {
            ReceiptStatus::Success
        } else {
            ReceiptStatus::Failed
        };
        it.exit_code = Some(code);
        self.receipts.insert(k, it);
        assert(self.receipts@ =~= before.update(k as int, self.receipts@[k as int]));
        assert(receipts_view(self.receipts@) =~= receipts_view(before).update(
            k as int,
            self.receipts@[k as int]@,
        ));
        if kind == CheckKind::Whole {
            self.proof_generation = if ok && self.generation == g {
                Some(g)
            } else {
                None
            };
        }
        assert(self@ =~= record_step(old(self)@, g, kind, hash@, component.deep_view(), ok, code)->Ok_0);
        Ok(())
    }
}

} // verus!
