//! Which configuration edits trust or untrust this plugin's own hooks, given
//! the hooks that the host lists.
use vstd::prelude::*;
use crate::ledger::session::owned;
use crate::text::{push_str, text_eq};

verus! {

/// The plugin id under which the host lists this tool's hooks.
pub open spec fn plugin_id() -> Seq<char> {
    "the-graphfather@the-graphfather"@
}

/// A hook as the host lists it: each field is `None` where the listing has
/// no text there.
pub struct HookEntry {
    pub plugin_id: Option<String>,
    pub key: Option<String>,
    pub current_hash: Option<String>,
}

/// One configuration edit: the key path of a hook's state, and the hash to
/// trust it at (`None` clears the state).
pub struct TrustEdit {
    pub key_path: String,
    pub trusted_hash: Option<String>,
}

/// Why no edits can be made.
#[derive(Clone, Copy, Debug, PartialEq, Eq, Structural)]
pub enum TrustError {
    /// An owned hook has no key.
    MissingKey,
    /// An owned hook has no current hash.
    MissingHash,
    /// The host lists no hook of this plugin.
    NoOwnedHooks,
}

pub struct HookEntryView {
    pub plugin_id: Option<Seq<char>>,
    pub key: Option<Seq<char>>,
    pub current_hash: Option<Seq<char>>,
}

pub struct TrustEditView {
    pub key_path: Seq<char>,
    pub trusted_hash: Option<Seq<char>>,
}

impl View for HookEntry {
    type V = HookEntryView;

    open spec fn view(&self) -> HookEntryView {
        HookEntryView {
            plugin_id: self.plugin_id.deep_view(),
            key: self.key.deep_view(),
            current_hash: self.current_hash.deep_view(),
        }
    }
}

impl View for TrustEdit {
    type V = TrustEditView;

    open spec fn view(&self) -> TrustEditView {
        TrustEditView { key_path: self.key_path@, trusted_hash: self.trusted_hash.deep_view() }
    }
}

/// The key path of a hook's trust state.
pub open spec fn state_path(key: Seq<char>) -> Seq<char> {
    "hooks.state.\""@ + key + "\""@
}

/// The edits for hooks `hs`, in order: one per hook of this plugin, trusting
/// it at its current hash when `enable` holds, else clearing it.
pub open spec fn edits_for(hs: Seq<HookEntryView>, enable: bool) -> Result<Seq<TrustEditView>, TrustError>
    decreases hs.len(),
{
    if hs.len() == 0 {
        Ok(Seq::empty())
    } else {
        match edits_for(hs.drop_last(), enable) {
            Err(e) => Err(e),
            Ok(es) => {
                let h = hs.last();
                if h.plugin_id != Some(plugin_id()) {
                    Ok(es)
                } else {
                    match h.key {
                        None => Err(TrustError::MissingKey),
                        Some(k) => match h.current_hash {
                            None => Err(TrustError::MissingHash),
                            Some(c) => Ok(
                                es.push(
                                    TrustEditView {
                                        key_path: state_path(k),
                                        trusted_hash: if enable {
                                            Some(c)
                                        } else {
                                            None
                                        },
                                    },
                                ),
                            ),
                        },
                    }
                }
            },
        }
    }
}

/// The edits to make, or why there are none.
pub open spec fn trust_plan(hs: Seq<HookEntryView>, enable: bool) -> Result<Seq<TrustEditView>, TrustError> {
    match edits_for(hs, enable) {
        Err(e) => Err(e),
        Ok(es) => if es.len() == 0 {
            Err(TrustError::NoOwnedHooks)
        } else {
            Ok(es)
        },
    }
}

/// The message for a trust refusal.
pub open spec fn trust_error_text(e: TrustError) -> Seq<char> {
    match e {
        TrustError::MissingKey => "key"@,
        TrustError::MissingHash => "hash"@,
        TrustError::NoOwnedHooks => "no owned hooks"@,
    }
}

impl TrustError {
    /// The message for this refusal.
    pub fn message(&self) -> (r: String)
        ensures
            r@ == trust_error_text(*self),
    {
        match self {
            TrustError::MissingKey => owned("key"),
            TrustError::MissingHash => owned("hash"),
            TrustError::NoOwnedHooks => owned("no owned hooks"),
        }
    }
}

/// The views of a list of hooks.
pub open spec fn entries_view(hs: Seq<HookEntry>) -> Seq<HookEntryView> {
    hs.map_values(|h: HookEntry| h@)
}

/// The edits that trust (`enable`) or untrust this plugin's hooks.
pub fn trust_edits(hooks: &Vec<HookEntry>, enable: bool) -> (r: Result<Vec<TrustEdit>, TrustError>)
    ensures
        match trust_plan(entries_view(hooks@), enable) {
            Ok(es) => r matches Ok(v) && v@.map_values(|e: TrustEdit| e@) == es,
            Err(e) => r == Err::<Vec<TrustEdit>, TrustError>(e),
        },
{
    let ghost hv = entries_view(hooks@);
    let mut out: Vec<TrustEdit> = Vec::new();
    let mut i: usize = 0;
    assert(hv.take(0) =~= Seq::<HookEntryView>::empty());
    assert(out@.map_values(|e: TrustEdit| e@) =~= Seq::<TrustEditView>::empty());
    while i < hooks.len()
        invariant
            i <= hooks.len(),
            hv == entries_view(hooks@),
            edits_for(hv.take(i as int), enable) == Ok::<Seq<TrustEditView>, TrustError>(
                out@.map_values(|e: TrustEdit| e@),
            ),
        decreases hooks.len() - i,
    {
        let h = &hooks[i];
        assert(hv.take(i + 1).drop_last() =~= hv.take(i as int));
        assert(hv.take(i + 1).last() == h@);
        let ours = match &h.plugin_id {
            Some(p) => text_eq(p.as_str(), "the-graphfather@the-graphfather"),
            None => false,
        };
        if ours {
            let k = match &h.key {
                None => {
                    assert(edits_for(hv.take(i + 1), enable) is Err);
                    proof {
                        lemma_err_persists(hv, enable, i as int + 1, TrustError::MissingKey);
                    }
                    assert(hv.take(hooks.len() as int) =~= hv);
                    return Err(TrustError::MissingKey);
                },
                Some(k) => k,
            };
            let c = match &h.current_hash {
                None => {
                    proof {
                        lemma_err_persists(hv, enable, i as int + 1, TrustError::MissingHash);
                    }
                    assert(hv.take(hooks.len() as int) =~= hv);
                    return Err(TrustError::MissingHash);
                },
                Some(c) => c,
            };
            let mut path = owned("hooks.state.\"");
            push_str(&mut path, k.as_str());
            push_str(&mut path, "\"");
            let hash = if enable {
                Some(c.clone())
            } else {
                None
            };
            let ghost before = out@.map_values(|e: TrustEdit| e@);
            out.push(TrustEdit { key_path: path, trusted_hash: hash });
            assert(out@.map_values(|e: TrustEdit| e@) =~= before.push(out@.last()@));
        }
        i = i + 1;
    }
    assert(hv.take(hooks.len() as int) =~= hv);
    if out.len() == 0 {
        return Err(TrustError::NoOwnedHooks);
    }
    Ok(out)
}

/// The hooks of `hs` that belong to this plugin, in order.
pub open spec fn owned_hooks(hs: Seq<HookEntryView>) -> Seq<HookEntryView>
    decreases hs.len(),
{
    if hs.len() == 0 {
        Seq::empty()
    } else if hs.last().plugin_id == Some(plugin_id()) {
        owned_hooks(hs.drop_last()).push(hs.last())
    } else {
        owned_hooks(hs.drop_last())
    }
}

/// Trusting or untrusting touches exactly this plugin's hooks: one edit per
/// owned hook, in order, at the key path of the key the host listed, trusting
/// the hash the host listed (or clearing the state when untrusting); and it
/// is refused when the host lists no such hook.
pub proof fn law_trust_touches_only_owned_hooks(hs: Seq<HookEntryView>, enable: bool)
    ensures
        trust_plan(hs, enable) matches Ok(es) ==> {
            &&& es.len() == owned_hooks(hs).len()
            &&& forall|i: int|
                0 <= i < es.len() ==> {
                    let h = #[trigger] owned_hooks(hs)[i];
                    &&& h.key is Some
                    &&& h.current_hash is Some
                    &&& es[i].key_path == state_path(h.key->0)
                    &&& es[i].trusted_hash == if enable {
                        h.current_hash
                    } else {
                        None
                    }
                }
        },
        owned_hooks(hs).len() == 0 ==> trust_plan(hs, enable) is Err,
{
    lemma_edits_follow_owned(hs, enable);
}

proof fn lemma_edits_follow_owned(hs: Seq<HookEntryView>, enable: bool)
    ensures
        edits_for(hs, enable) matches Ok(es) ==> {
            &&& es.len() == owned_hooks(hs).len()
            &&& forall|i: int|
                0 <= i < es.len() ==> {
                    let h = #[trigger] owned_hooks(hs)[i];
                    &&& h.key is Some
                    &&& h.current_hash is Some
                    &&& es[i].key_path == state_path(h.key->0)
                    &&& es[i].trusted_hash == if enable {
                        h.current_hash
                    } else {
                        None
                    }
                }
        },
    decreases hs.len(),
{
    if hs.len() > 0 {
        lemma_edits_follow_owned(hs.drop_last(), enable);
        let o = owned_hooks(hs.drop_last());
        if edits_for(hs, enable) is Ok && hs.last().plugin_id == Some(plugin_id()) {
            assert forall|i: int| 0 <= i < o.len() implies #[trigger] owned_hooks(hs)[i] == o[i] by {}
        }
    }
}

/// The edits can be made exactly when every owned hook has a key and a
/// current hash.
proof fn lemma_edits_ok_exactly(hs: Seq<HookEntryView>, enable: bool)
    ensures
        edits_for(hs, enable) is Ok <==> forall|i: int|
            0 <= i < owned_hooks(hs).len() ==> (#[trigger] owned_hooks(hs)[i]).key is Some
                && owned_hooks(hs)[i].current_hash is Some,
    decreases hs.len(),
{
    if hs.len() > 0 {
        lemma_edits_ok_exactly(hs.drop_last(), enable);
        let o = owned_hooks(hs.drop_last());
        let h = hs.last();
        if h.plugin_id == Some(plugin_id()) {
            let w = owned_hooks(hs);
            assert(w == o.push(h));
            assert forall|i: int| 0 <= i < o.len() implies #[trigger] w[i] == o[i] by {}
            assert(w[o.len() as int] == h);
            if edits_for(hs, enable) is Ok {
                assert(edits_for(hs.drop_last(), enable) is Ok);
                assert(h.key is Some && h.current_hash is Some);
                assert forall|i: int| 0 <= i < w.len() implies (#[trigger] w[i]).key is Some
                    && w[i].current_hash is Some by {
                    if i < o.len() {
                        assert(w[i] == o[i]);
                    }
                }
            } else {
                if edits_for(hs.drop_last(), enable) is Ok {
                    assert(!(h.key is Some && h.current_hash is Some));
                    assert(!(w[o.len() as int].key is Some && w[o.len() as int].current_hash is Some));
                } else {
                    let j = choose|j: int| 0 <= j < o.len() && !((#[trigger] o[j]).key is Some && o[j].current_hash is Some);
                    assert(w[j] == o[j]);
                }
            }
        } else {
            assert(owned_hooks(hs) == o);
        }
    }
}

/// Trusting or untrusting succeeds exactly when the host lists at least one
/// hook of this plugin and each has a key and a current hash.
pub proof fn law_trust_succeeds_exactly(hs: Seq<HookEntryView>, enable: bool)
    ensures
        trust_plan(hs, enable) is Ok <==> owned_hooks(hs).len() > 0 && forall|i: int|
            0 <= i < owned_hooks(hs).len() ==> (#[trigger] owned_hooks(hs)[i]).key is Some
                && owned_hooks(hs)[i].current_hash is Some,
{
    lemma_edits_ok_exactly(hs, enable);
    lemma_edits_follow_owned(hs, enable);
}

/// Once the edits of a prefix fail, the edits of every longer prefix fail
/// the same way.
proof fn lemma_err_persists(hs: Seq<HookEntryView>, enable: bool, i: int, e: TrustError)
    requires
        0 <= i <= hs.len(),
        edits_for(hs.take(i), enable) == Err::<Seq<TrustEditView>, TrustError>(e),
    ensures
        edits_for(hs.take(hs.len() as int), enable) == Err::<Seq<TrustEditView>, TrustError>(e),
    decreases hs.len() - i,
{
    if i < hs.len() {
        assert(hs.take(i + 1).drop_last() =~= hs.take(i));
        lemma_err_persists(hs, enable, i + 1, e);
    }
}

} // verus!
