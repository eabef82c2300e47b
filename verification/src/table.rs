//! A small keyed table: an ordered list of entries read with last-write-wins
//! semantics, so that its meaning is a finite map from key text to value.
use vstd::prelude::*;

verus! {

/// One keyed entry of a [`Table`].
pub struct Entry<V> {
    pub key: String,
    pub value: V,
}

/// A map from text keys to values, kept as a list of entries. Each operation
/// keeps at most one entry per key; a later entry for a key shadows earlier ones.
pub struct Table<V> {
    pub entries: Vec<Entry<V>>,
}

/// The map that a list of entries denotes: later entries win.
pub open spec fn entries_map<V: DeepView>(s: Seq<Entry<V>>) -> Map<Seq<char>, V::V>
    decreases s.len(),
{
    if s.len() == 0 {
        Map::empty()
    } else {
        entries_map(s.drop_last()).insert(s.last().key@, s.last().value.deep_view())
    }
}

impl<V: DeepView> View for Table<V> {
    type V = Map<Seq<char>, V::V>;

    open spec fn view(&self) -> Map<Seq<char>, V::V> {
        entries_map(self.entries@)
    }
}

impl<V: DeepView> DeepView for Table<V> {
    type V = Map<Seq<char>, V::V>;

    open spec fn deep_view(&self) -> Map<Seq<char>, V::V> {
        entries_map(self.entries@)
    }
}

/// The map of a prefix grows by one entry at a time.
pub proof fn lemma_entries_map_step<V: DeepView>(s: Seq<Entry<V>>, i: int)
    requires
        0 <= i < s.len(),
    ensures
        entries_map(s.take(i + 1)) == entries_map(s.take(i)).insert(
            s[i].key@,
            s[i].value.deep_view(),
        ),
{
    assert(s.take(i + 1).drop_last() =~= s.take(i));
}

/// A key is in the map exactly when some entry carries it.
pub proof fn lemma_entries_map_dom<V: DeepView>(s: Seq<Entry<V>>, k: Seq<char>)
    ensures
        entries_map(s).contains_key(k) <==> exists|i: int| 0 <= i < s.len() && #[trigger] s[i].key@ == k,
    decreases s.len(),
{
    if s.len() > 0 {
        lemma_entries_map_dom(s.drop_last(), k);
        if entries_map(s).contains_key(k) && s.last().key@ != k {
            let j = choose|j: int| 0 <= j < s.drop_last().len() && #[trigger] s.drop_last()[j].key@ == k;
            assert(s[j].key@ == k);
        }
        if exists|i: int| 0 <= i < s.len() && #[trigger] s[i].key@ == k {
            let i = choose|i: int| 0 <= i < s.len() && #[trigger] s[i].key@ == k;
            if i < s.len() - 1 {
                assert(s.drop_last()[i].key@ == k);
            }
        }
    }
}

/// A stored key's value comes from some entry carrying that key.
pub proof fn lemma_entries_map_value<V: DeepView>(s: Seq<Entry<V>>, k: Seq<char>)
    requires
        entries_map(s).contains_key(k),
    ensures
        exists|i: int|
            0 <= i < s.len() && #[trigger] s[i].key@ == k && s[i].value.deep_view() == entries_map(s)[k],
    decreases s.len(),
{
    if s.last().key@ != k {
        lemma_entries_map_value(s.drop_last(), k);
        let j = choose|j: int|
            0 <= j < s.drop_last().len() && #[trigger] s.drop_last()[j].key@ == k
                && s.drop_last()[j].value.deep_view() == entries_map(s.drop_last())[k];
        assert(s[j].key@ == k);
    } else {
        assert(s[s.len() - 1].key@ == k);
    }
}

/// Whether `ids` holds `x`, comparing by text.
pub fn contains_id(ids: &Vec<String>, x: &String) -> (r: bool)
    ensures
        r == ids.deep_view().contains(x@),
{
    let mut i: usize = 0;
    while i < ids.len()
        invariant
            i <= ids.len(),
            forall|j: int| 0 <= j < i ==> ids.deep_view()[j] != x@,
        decreases ids.len() - i,
    {
        if ids[i] == *x {
            assert(ids.deep_view()[i as int] == x@);
            return true;
        }
        i = i + 1;
    }
    proof {
        if ids.deep_view().contains(x@) {
            let j = choose|j: int| 0 <= j < ids.deep_view().len() && ids.deep_view()[j] == x@;
            assert(false);
        }
    }
    false
}

impl<V: DeepView> Table<V> {
    /// An empty table.
    pub fn new() -> (t: Self)
        ensures
            t@ == Map::<Seq<char>, V::V>::empty(),
    {
        Table { entries: Vec::new() }
    }

    /// The value stored under `key`, if any.
    pub fn get(&self, key: &String) -> (r: Option<&V>)
        ensures
            r is Some == self@.contains_key(key@),
            r is Some ==> r->0.deep_view() == self@[key@],
    {
        let mut found: Option<usize> = None;
        let mut i: usize = 0;
        while i < self.entries.len()
            invariant
                i <= self.entries.len(),
                match found {
                    Some(j) => j < i && entries_map(self.entries@.take(i as int)).contains_key(key@)
                        && entries_map(self.entries@.take(i as int))[key@]
                        == self.entries@[j as int].value.deep_view(),
                    None => !entries_map(self.entries@.take(i as int)).contains_key(key@),
                },
            decreases self.entries.len() - i,
        {
            proof {
                lemma_entries_map_step(self.entries@, i as int);
            }
            if self.entries[i].key == *key {
                found = Some(i);
            }
            i = i + 1;
        }
        assert(self.entries@.take(self.entries.len() as int) =~= self.entries@);
        match found {
            Some(j) => Some(&self.entries[j].value),
            None => None,
        }
    }

    /// Whether `key` is stored.
    pub fn contains_key(&self, key: &String) -> (r: bool)
        ensures
            r == self@.contains_key(key@),
    {
        self.get(key).is_some()
    }

    /// Removes `key` and hands back the value it held, if any.
    pub fn take(&mut self, key: &String) -> (r: Option<V>)
        ensures
            final(self)@ == old(self)@.remove(key@),
            r is Some == old(self)@.contains_key(key@),
            r is Some ==> r->0.deep_view() == old(self)@[key@],
    {
        let mut rest: Vec<Entry<V>> = Vec::new();
        std::mem::swap(&mut rest, &mut self.entries);
        let ghost orig = rest@;
        let mut result: Option<V> = None;
        while rest.len() > 0
            invariant
                rest.len() <= orig.len(),
                rest@ == orig.skip(orig.len() - rest.len()),
                entries_map(self.entries@) =~= entries_map(
                    orig.take(orig.len() - rest.len()),
                ).remove(key@),
                match result {
                    Some(v) => entries_map(orig.take(orig.len() - rest.len())).contains_key(key@)
                        && v.deep_view() == entries_map(orig.take(orig.len() - rest.len()))[key@],
                    None => !entries_map(orig.take(orig.len() - rest.len())).contains_key(key@),
                },
            decreases rest.len(),
        {
            let ghost i = orig.len() - rest.len();
            proof {
                lemma_entries_map_step(orig, i);
                assert(rest@[0] == orig[i]);
            }
            let e = rest.remove(0);
            assert(rest@ =~= orig.skip(orig.len() - rest.len()));
            if e.key == *key {
                result = Some(e.value);
            } else {
                let ghost before = self.entries@;
                self.entries.push(e);
                assert(self.entries@.drop_last() =~= before);
            }
        }
        assert(orig.take(orig.len() as int) =~= orig);
        result
    }

    /// Drops the entry for `key`, if any.
    pub fn remove(&mut self, key: &String)
        ensures
            final(self)@ == old(self)@.remove(key@),
    {
        let _ = self.take(key);
    }

    /// Stores `value` under `key`, replacing what was there.
    pub fn insert(&mut self, key: String, value: V)
        ensures
            final(self)@ == old(self)@.insert(key@, value.deep_view()),
    {
        self.take(&key);
        let ghost before = self.entries@;
        self.entries.push(Entry { key, value });
        assert(self.entries@.drop_last() =~= before);
    }

    /// Keeps only the keys listed in `keep`.
    pub fn retain_keys(&mut self, keep: &Vec<String>)
        ensures
            final(self)@ == old(self)@.restrict(keep.deep_view().to_set()),
    {
        let mut rest: Vec<Entry<V>> = Vec::new();
        std::mem::swap(&mut rest, &mut self.entries);
        let ghost orig = rest@;
        let ghost ks = keep.deep_view().to_set();
        while rest.len() > 0
            invariant
                rest.len() <= orig.len(),
                rest@ == orig.skip(orig.len() - rest.len()),
                ks == keep.deep_view().to_set(),
                entries_map(self.entries@) =~= entries_map(
                    orig.take(orig.len() - rest.len()),
                ).restrict(ks),
            decreases rest.len(),
        {
            let ghost i = orig.len() - rest.len();
            proof {
                lemma_entries_map_step(orig, i);
                assert(rest@[0] == orig[i]);
            }
            let e = rest.remove(0);
            assert(rest@ =~= orig.skip(orig.len() - rest.len()));
            if contains_id(keep, &e.key) {
                let ghost before = self.entries@;
                self.entries.push(e);
                assert(self.entries@.drop_last() =~= before);
            }
        }
        assert(orig.take(orig.len() as int) =~= orig);
    }
}

impl<W: DeepView> Table<Table<W>> {
    /// Keeps, inside every value table, only the keys listed in `keep`.
    pub fn retain_inner_keys(&mut self, keep: &Vec<String>)
        ensures
            final(self)@ == old(self)@.map_values(
                |m: Map<Seq<char>, W::V>| m.restrict(keep.deep_view().to_set()),
            ),
    {
        let mut rest: Vec<Entry<Table<W>>> = Vec::new();
        std::mem::swap(&mut rest, &mut self.entries);
        let ghost orig = rest@;
        let ghost f = |m: Map<Seq<char>, W::V>| m.restrict(keep.deep_view().to_set());
        while rest.len() > 0
            invariant
                rest.len() <= orig.len(),
                rest@ == orig.skip(orig.len() - rest.len()),
                f == (|m: Map<Seq<char>, W::V>| m.restrict(keep.deep_view().to_set())),
                entries_map(self.entries@) =~= entries_map(
                    orig.take(orig.len() - rest.len()),
                ).map_values(f),
            decreases rest.len(),
        {
            let ghost i = orig.len() - rest.len();
            proof {
                lemma_entries_map_step(orig, i);
                assert(rest@[0] == orig[i]);
            }
            let mut e = rest.remove(0);
            assert(rest@ =~= orig.skip(orig.len() - rest.len()));
            e.value.retain_keys(keep);
            let ghost before = self.entries@;
            self.entries.push(e);
            assert(self.entries@.drop_last() =~= before);
        }
        assert(orig.take(orig.len() as int) =~= orig);
    }
}

} // verus!
