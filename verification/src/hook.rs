//! What a hook answers, and the JSON renderings of session fields that the
//! hook context shows.
use vstd::prelude::*;
use crate::digest::{json_string, json_string_text};
use crate::ledger::model::Phase;
use crate::ledger::session::owned;

verus! {

/// A hook's answer.
pub enum HookAction {
    /// Let the tool call proceed, printing nothing.
    Allow,
    /// Refuse a tool call, with the reason.
    Deny(String),
    /// Record a successful patch as a declared change, printing nothing.
    RecordChange,
    /// Print this context for the agent.
    Context(String),
}

/// A hook's answer, as text.
pub enum HookActionView {
    Allow,
    Deny(Seq<char>),
    RecordChange,
    Context(Seq<char>),
}

impl View for HookAction {
    type V = HookActionView;

    open spec fn view(&self) -> HookActionView {
        match self {
            HookAction::Allow => HookActionView::Allow,
            HookAction::Deny(r) => HookActionView::Deny(r@),
            HookAction::RecordChange => HookActionView::RecordChange,
            HookAction::Context(c) => HookActionView::Context(c@),
        }
    }
}

/// The JSON text of a phase name.
pub open spec fn phase_json(p: Phase) -> Seq<char> {
    match p {
        Phase::Blueprint => "\"blueprint\""@,
        Phase::Build => "\"build\""@,
        Phase::Proof => "\"proof\""@,
        Phase::Repair => "\"repair\""@,
        Phase::Complete => "\"complete\""@,
    }
}

/// The JSON text of an optional layer.
pub open spec fn layer_json(l: Option<Seq<char>>) -> Seq<char> {
    match l {
        None => "null"@,
        Some(x) => json_string_text(x),
    }
}

/// The JSON text of a phase name.
pub fn phase_text(p: Phase) -> (r: String)
    ensures
        r@ == phase_json(p),
{
    match p {
        Phase::Blueprint => owned("\"blueprint\""),
        Phase::Build => owned("\"build\""),
        Phase::Proof => owned("\"proof\""),
        Phase::Repair => owned("\"repair\""),
        Phase::Complete => owned("\"complete\""),
    }
}

/// The JSON text of an optional layer.
pub fn layer_text(l: &Option<String>) -> (r: String)
    ensures
        r@ == layer_json(
            match l {
                Some(x) => Some(x@),
                None => None,
            },
        ),
{
    match l {
        None => owned("null"),
        Some(x) => json_string(x.as_str()),
    }
}

} // verus!
