//! The text that tells a user why a request was refused.
use vstd::prelude::*;
use crate::ledger::model::{Field, LedgerError};
use crate::ledger::session::owned;
use crate::text::{decimal, decimal_text, push_str};

verus! {

/// How a bounded field is named in messages.
pub open spec fn field_name(f: Field) -> Seq<char> {
    match f {
        Field::Objective => "objective"@,
        Field::Next => "next"@,
        Field::Cursor => "cursor"@,
        Field::Evidence => "evidence"@,
        Field::Reason => "reason"@,
        Field::ResetReason => "reset reason"@,
        Field::BlueprintId => "blueprint id"@,
        Field::Label => "label"@,
        Field::SafetyReason => "safety reason"@,
    }
}

/// The message for a refusal.
pub open spec fn error_text(e: LedgerError) -> Seq<char> {
    match e {
        LedgerError::Bound { field, max } => field_name(field) + " must be nonempty and at most "@
            + decimal_text(max as nat) + " bytes"@,
        LedgerError::BlueprintShape => "blueprint requires scaffold-first, 1-64 components, and 1-16 layers"@,
        LedgerError::DuplicateId => "component/layer ids must be unique"@,
        LedgerError::UnknownComponent => "unknown component"@,
        LedgerError::InvalidDependencyEdge => "invalid dependency edge"@,
        LedgerError::DependencyCycle => "dependency cycle"@,
        LedgerError::BlueprintExists => "blueprint already exists; use reset"@,
        LedgerError::NoBlueprint => "plan a blueprint first"@,
        LedgerError::LayerMissing => "current layer missing"@,
        LedgerError::NoOpenIssueForComponent => "no open repair issue for component"@,
        LedgerError::MarkPhase => "mark only during build or repair"@,
        LedgerError::OpenIssuesRemain => "open repair issues remain"@,
        LedgerError::AdvancePhase => "advance only during build or repair"@,
        LedgerError::IncompleteLayer => "current layer has incomplete components"@,
        LedgerError::InvalidLayer => "invalid layer"@,
        LedgerError::IssuePhase => "issues only from proof or repair"@,
        LedgerError::IssueAlreadyOpen => "component already has an open issue"@,
        LedgerError::FinishNotReady => "finish requires a successful whole check at current generation"@,
        LedgerError::StaleRevision => "stale revision"@,
        LedgerError::SmokePhase => "smoke only during build"@,
        LedgerError::WholePhase => "whole only in proof"@,
        LedgerError::NarrowPhase => "narrow needs an open repair issue"@,
        LedgerError::CheckAlreadyReserved => "same check already reserved at this generation"@,
        LedgerError::ReceiptLost => "running receipt lost"@,
        LedgerError::MissingSeparator => "check requires --"@,
        LedgerError::MissingKindLabel => "check requires KIND LABEL"@,
        LedgerError::MissingCommand => "command required"@,
        LedgerError::UnknownCheckOption => "unknown check option"@,
        LedgerError::ReasonRequiresText => "--reason requires text"@,
        LedgerError::InvalidCheckKind => "invalid check kind"@,
        LedgerError::SmokeTestCommand => "recognized test command requires whole or narrow check kind"@,
        LedgerError::ComponentRequiresId => "--component requires an id"@,
        LedgerError::WholeComponent => "whole checks cover the whole project; --component is not allowed"@,
    }
}

/// The decimal text of a signed number.
pub open spec fn signed_text(n: int) -> Seq<char> {
    if n < 0 {
        "-"@ + decimal_text((-n) as nat)
    } else {
        decimal_text(n as nat)
    }
}

/// The message for a check whose command exited with `code`.
pub open spec fn exit_failure_text(code: i32) -> Seq<char> {
    "check failed with exit code "@ + signed_text(code as int)
}

/// The message for a check whose command exited with `code`.
pub fn exit_failure(code: i32) -> (r: String)
    ensures
        r@ == exit_failure_text(code),
{
    let mut t = owned("check failed with exit code ");
    let wide = code as i64;
    if wide < 0 {
        push_str(&mut t, "-");
        push_str(&mut t, decimal((-wide) as u64).as_str());
    } else {
        push_str(&mut t, decimal(wide as u64).as_str());
    }
    t
}

fn field_text(f: Field) -> (r: String)
    ensures
        r@ == field_name(f),
{
    match f {
        Field::Objective => owned("objective"),
        Field::Next => owned("next"),
        Field::Cursor => owned("cursor"),
        Field::Evidence => owned("evidence"),
        Field::Reason => owned("reason"),
        Field::ResetReason => owned("reset reason"),
        Field::BlueprintId => owned("blueprint id"),
        Field::Label => owned("label"),
        Field::SafetyReason => owned("safety reason"),
    }
}

impl LedgerError {
    /// The message for this refusal.
    pub fn message(&self) -> (r: String)
        ensures
            r@ == error_text(*self),
    {
        match self {
            LedgerError::Bound { field, max } => {
                let mut t = field_text(*field);
                push_str(&mut t, " must be nonempty and at most ");
                push_str(&mut t, decimal(*max as u64).as_str());
                push_str(&mut t, " bytes");
                t
            },
            LedgerError::BlueprintShape => owned(
                "blueprint requires scaffold-first, 1-64 components, and 1-16 layers",
            ),
            LedgerError::DuplicateId => owned("component/layer ids must be unique"),
            LedgerError::UnknownComponent => owned("unknown component"),
            LedgerError::InvalidDependencyEdge => owned("invalid dependency edge"),
            LedgerError::DependencyCycle => owned("dependency cycle"),
            LedgerError::BlueprintExists => owned("blueprint already exists; use reset"),
            LedgerError::NoBlueprint => owned("plan a blueprint first"),
            LedgerError::LayerMissing => owned("current layer missing"),
            LedgerError::NoOpenIssueForComponent => owned("no open repair issue for component"),
            LedgerError::MarkPhase => owned("mark only during build or repair"),
            LedgerError::OpenIssuesRemain => owned("open repair issues remain"),
            LedgerError::AdvancePhase => owned("advance only during build or repair"),
            LedgerError::IncompleteLayer => owned("current layer has incomplete components"),
            LedgerError::InvalidLayer => owned("invalid layer"),
            LedgerError::IssuePhase => owned("issues only from proof or repair"),
            LedgerError::IssueAlreadyOpen => owned("component already has an open issue"),
            LedgerError::FinishNotReady => owned(
                "finish requires a successful whole check at current generation",
            ),
            LedgerError::StaleRevision => owned("stale revision"),
            LedgerError::SmokePhase => owned("smoke only during build"),
            LedgerError::WholePhase => owned("whole only in proof"),
            LedgerError::NarrowPhase => owned("narrow needs an open repair issue"),
            LedgerError::CheckAlreadyReserved => owned("same check already reserved at this generation"),
            LedgerError::ReceiptLost => owned("running receipt lost"),
            LedgerError::MissingSeparator => owned("check requires --"),
            LedgerError::MissingKindLabel => owned("check requires KIND LABEL"),
            LedgerError::MissingCommand => owned("command required"),
            LedgerError::UnknownCheckOption => owned("unknown check option"),
            LedgerError::ReasonRequiresText => owned("--reason requires text"),
            LedgerError::InvalidCheckKind => owned("invalid check kind"),
            LedgerError::SmokeTestCommand => owned(
                "recognized test command requires whole or narrow check kind",
            ),
            LedgerError::ComponentRequiresId => owned("--component requires an id"),
            LedgerError::WholeComponent => owned(
                "whole checks cover the whole project; --component is not allowed",
            ),
        }
    }
}

} // verus!
