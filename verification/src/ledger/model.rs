//! The ledger's data: a session record per conversation, with the plan
//! (blueprint), the cursor, layer marks, repair issues and check receipts,
//! together with the mathematical view that every contract speaks of.
use vstd::prelude::*;
use crate::table::Table;

verus! {

/// Version of the stored session document.
pub const SCHEMA: u32 = 1;

/// Byte limit for objective, next action, cursor text and reasons.
pub const MAX_TEXT: usize = 4096;

/// Byte limit for mark evidence.
pub const MAX_EVIDENCE: usize = 8192;

/// Byte limit for component and layer ids and check labels.
pub const MAX_ID: usize = 256;

/// Most components a blueprint may name.
pub const MAX_COMPONENTS: usize = 64;

/// Most layers a blueprint may name.
pub const MAX_LAYERS: usize = 16;

/// Where a project stands.
#[derive(Clone, Copy, Debug, PartialEq, Eq, Structural)]
pub enum Phase {
    Blueprint,
    Build,
    Proof,
    Repair,
    Complete,
}

/// The kinds of wrapped check.
#[derive(Clone, Copy, Debug, PartialEq, Eq, Structural)]
pub enum CheckKind {
    Smoke,
    Whole,
    Narrow,
    Safety,
}

/// The state of a check receipt.
#[derive(Clone, Copy, Debug, PartialEq, Eq, Structural)]
pub enum ReceiptStatus {
    Running,
    Success,
    Failed,
}

/// The bounded text fields, named in bound errors.
#[derive(Clone, Copy, Debug, PartialEq, Eq, Structural)]
pub enum Field {
    Objective,
    Next,
    Cursor,
    Evidence,
    Reason,
    ResetReason,
    BlueprintId,
    Label,
    SafetyReason,
}

/// Why a ledger request was refused.
#[derive(Clone, Copy, Debug, PartialEq, Eq, Structural)]
pub enum LedgerError {
    /// The field is empty after trimming or longer than `max` bytes.
    Bound { field: Field, max: usize },
    BlueprintShape,
    DuplicateId,
    UnknownComponent,
    InvalidDependencyEdge,
    DependencyCycle,
    BlueprintExists,
    NoBlueprint,
    LayerMissing,
    NoOpenIssueForComponent,
    MarkPhase,
    OpenIssuesRemain,
    AdvancePhase,
    IncompleteLayer,
    InvalidLayer,
    IssuePhase,
    IssueAlreadyOpen,
    FinishNotReady,
    StaleRevision,
    SmokePhase,
    WholePhase,
    NarrowPhase,
    CheckAlreadyReserved,
    ReceiptLost,
    MissingSeparator,
    MissingKindLabel,
    MissingCommand,
    UnknownCheckOption,
    ReasonRequiresText,
    InvalidCheckKind,
    SmokeTestCommand,
    /// `--component` has no id after it.
    ComponentRequiresId,
    /// A whole check covers the whole project and takes no component.
    WholeComponent,
}

/// Why a check may not be reserved.
pub enum CheckRefusal {
    /// The request breaks a rule.
    Refused(LedgerError),
    /// The same check already ran on unchanged inputs: the earlier run's
    /// receipt, and the cursor to go on from.
    Repeated { prior: Receipt, cursor: Cursor },
}

/// The plan of a project.
pub struct Blueprint {
    pub objective: String,
    pub components: Vec<String>,
    pub layers: Vec<String>,
    pub next: String,
    /// For each component, the components it depends on.
    pub dependencies: Table<Vec<String>>,
}

/// The cursor: current layer, components still to mark in it, exact next action.
pub struct Cursor {
    pub layer: Option<String>,
    pub incomplete_components: Vec<String>,
    pub next: String,
}

/// A repair target opened during proof or repair.
pub struct Issue {
    pub component: String,
    pub reason: String,
    pub resolved: bool,
}

/// Metadata of one wrapped check run.
pub struct Receipt {
    pub kind: CheckKind,
    pub label: String,
    pub argv_sha256: String,
    pub generation: u64,
    pub status: ReceiptStatus,
    pub exit_code: Option<i32>,
    /// The component a scoped check covers, if any.
    pub component: Option<String>,
    /// The component's input epoch when a scoped check was reserved (0 when
    /// unscoped).
    pub epoch: u64,
}

/// The record kept for one conversation.
pub struct Session {
    pub schema: u32,
    pub session_id: String,
    pub phase: Phase,
    pub generation: u64,
    pub blueprint: Option<Blueprint>,
    pub cursor: Cursor,
    /// Evidence per layer and component.
    pub marks: Table<Table<String>>,
    pub issues: Vec<Issue>,
    pub receipts: Vec<Receipt>,
    pub proof_generation: Option<u64>,
    pub revision: u64,
    pub input_epochs: Table<u64>,
}

/// A request to clear a component's marks from a layer onward.
pub struct Invalidation {
    pub component: String,
    pub layer: String,
}

/// A guarded amendment of the plan.
pub struct Revision {
    /// The revision the amendment was written against.
    pub expected_revision: u64,
    pub reason: String,
    pub blueprint: Blueprint,
    /// In order; each names a component and the earliest layer to clear.
    pub invalidate: Vec<Invalidation>,
}

/// A dependency entry as text: a component and its prerequisites.
pub type DependencyView = (Seq<char>, Seq<Seq<char>>);

#[verifier::ext_equal]
pub struct BlueprintView {
    pub objective: Seq<char>,
    pub components: Seq<Seq<char>>,
    pub layers: Seq<Seq<char>>,
    pub next: Seq<char>,
    /// The dependency entries in the order held.
    pub dependency_entries: Seq<DependencyView>,
    /// The dependencies as a map (a later entry for a component wins).
    pub dependencies: Map<Seq<char>, Seq<Seq<char>>>,
}

#[verifier::ext_equal]
pub struct CursorView {
    pub layer: Option<Seq<char>>,
    pub incomplete: Seq<Seq<char>>,
    pub next: Seq<char>,
}

#[verifier::ext_equal]
pub struct IssueView {
    pub component: Seq<char>,
    pub reason: Seq<char>,
    pub resolved: bool,
}

#[verifier::ext_equal]
pub struct ReceiptView {
    pub kind: CheckKind,
    pub label: Seq<char>,
    pub argv_sha256: Seq<char>,
    pub generation: u64,
    pub status: ReceiptStatus,
    pub exit_code: Option<i32>,
    pub component: Option<Seq<char>>,
    pub epoch: u64,
}

/// An invalidation as text: (component, layer).
pub type InvalidationView = (Seq<char>, Seq<char>);

#[verifier::ext_equal]
pub struct RevisionView {
    pub expected_revision: u64,
    pub reason: Seq<char>,
    pub blueprint: BlueprintView,
    pub invalidate: Seq<InvalidationView>,
}

pub enum CheckRefusalView {
    Refused(LedgerError),
    Repeated { prior: ReceiptView, cursor: CursorView },
}

impl View for CheckRefusal {
    type V = CheckRefusalView;

    open spec fn view(&self) -> CheckRefusalView {
        match self {
            CheckRefusal::Refused(e) => CheckRefusalView::Refused(*e),
            CheckRefusal::Repeated { prior, cursor } => CheckRefusalView::Repeated { prior: prior@, cursor: cursor@ },
        }
    }
}

impl Receipt {
    /// A copy of this receipt.
    pub fn duplicate(&self) -> (r: Receipt)
        ensures
            r@ == self@,
    {
        Receipt {
            kind: self.kind,
            label: self.label.clone(),
            argv_sha256: self.argv_sha256.clone(),
            generation: self.generation,
            status: self.status,
            exit_code: self.exit_code,
            component: match &self.component {
                Some(c) => Some(c.clone()),
                None => None,
            },
            epoch: self.epoch,
        }
    }
}

impl Cursor {
    /// A copy of this cursor.
    pub fn duplicate(&self) -> (r: Cursor)
        ensures
            r@ == self@,
    {
        let r = Cursor {
            layer: match &self.layer {
                Some(l) => Some(l.clone()),
                None => None,
            },
            incomplete_components: crate::text::clone_ids(&self.incomplete_components),
            next: self.next.clone(),
        };
        assert(r@ =~= self@);
        r
    }
}

impl View for Revision {
    type V = RevisionView;

    open spec fn view(&self) -> RevisionView {
        RevisionView {
            expected_revision: self.expected_revision,
            reason: self.reason@,
            blueprint: self.blueprint@,
            invalidate: self.invalidate@.map_values(|i: Invalidation| (i.component@, i.layer@)),
        }
    }
}

/// Layer -> component -> evidence.
pub type MarksView = Map<Seq<char>, Map<Seq<char>, Seq<char>>>;

#[verifier::ext_equal]
pub struct SessionView {
    pub schema: u32,
    pub session_id: Seq<char>,
    pub phase: Phase,
    pub generation: u64,
    pub blueprint: Option<BlueprintView>,
    pub cursor: CursorView,
    pub marks: MarksView,
    pub issues: Seq<IssueView>,
    pub receipts: Seq<ReceiptView>,
    pub proof_generation: Option<u64>,
    pub revision: u64,
    pub input_epochs: Map<Seq<char>, u64>,
}

impl View for Blueprint {
    type V = BlueprintView;

    open spec fn view(&self) -> BlueprintView {
        BlueprintView {
            objective: self.objective@,
            components: self.components.deep_view(),
            layers: self.layers.deep_view(),
            next: self.next@,
            dependency_entries: self.dependencies.entries@.map_values(
                |e: crate::table::Entry<Vec<String>>| (e.key@, e.value.deep_view()),
            ),
            dependencies: self.dependencies@,
        }
    }
}

impl View for Cursor {
    type V = CursorView;

    open spec fn view(&self) -> CursorView {
        CursorView {
            layer: match self.layer {
                Some(l) => Some(l@),
                None => None,
            },
            incomplete: self.incomplete_components.deep_view(),
            next: self.next@,
        }
    }
}

impl View for Issue {
    type V = IssueView;

    open spec fn view(&self) -> IssueView {
        IssueView { component: self.component@, reason: self.reason@, resolved: self.resolved }
    }
}

impl View for Receipt {
    type V = ReceiptView;

    open spec fn view(&self) -> ReceiptView {
        ReceiptView {
            kind: self.kind,
            label: self.label@,
            argv_sha256: self.argv_sha256@,
            generation: self.generation,
            status: self.status,
            exit_code: self.exit_code,
            component: self.component.deep_view(),
            epoch: self.epoch,
        }
    }
}

/// The views of a list of issues.
pub open spec fn issues_view(v: Seq<Issue>) -> Seq<IssueView> {
    v.map_values(|i: Issue| i@)
}

/// The views of a list of receipts.
pub open spec fn receipts_view(v: Seq<Receipt>) -> Seq<ReceiptView> {
    v.map_values(|r: Receipt| r@)
}

impl View for Session {
    type V = SessionView;

    open spec fn view(&self) -> SessionView {
        SessionView {
            schema: self.schema,
            session_id: self.session_id@,
            phase: self.phase,
            generation: self.generation,
            blueprint: match self.blueprint {
                Some(b) => Some(b@),
                None => None,
            },
            cursor: self.cursor@,
            marks: self.marks@,
            issues: issues_view(self.issues@),
            receipts: receipts_view(self.receipts@),
            proof_generation: self.proof_generation,
            revision: self.revision,
            input_epochs: self.input_epochs@,
        }
    }
}

/// The first index of `s` whose element satisfies `p`, if any.
pub open spec fn first_index<A>(s: Seq<A>, p: spec_fn(A) -> bool) -> Option<int>
    decreases s.len(),
{
    if s.len() == 0 {
        None
    } else if p(s[0]) {
        Some(0)
    } else {
        match first_index(s.drop_first(), p) {
            Some(i) => Some(i + 1),
            None => None,
        }
    }
}

/// `first_index` finds the least satisfying index, or none when none satisfies.
pub proof fn lemma_first_index<A>(s: Seq<A>, p: spec_fn(A) -> bool)
    ensures
        match first_index(s, p) {
            Some(i) => 0 <= i < s.len() && p(s[i]) && forall|j: int| 0 <= j < i ==> !p(#[trigger] s[j]),
            None => forall|j: int| 0 <= j < s.len() ==> !p(#[trigger] s[j]),
        },
    decreases s.len(),
{
    if s.len() > 0 && !p(s[0]) {
        lemma_first_index(s.drop_first(), p);
        assert forall|j: int| 1 <= j < s.len() implies s[j] == s.drop_first()[j - 1] by {}
    }
}

/// The least index satisfying `p` is the one `first_index` reports.
pub proof fn lemma_first_index_at<A>(s: Seq<A>, p: spec_fn(A) -> bool, i: int)
    requires
        0 <= i < s.len(),
        p(s[i]),
        forall|j: int| 0 <= j < i ==> !p(#[trigger] s[j]),
    ensures
        first_index(s, p) == Some(i),
{
    lemma_first_index(s, p);
    match first_index(s, p) {
        Some(k) => {
            if k < i {
                assert(!p(s[k]));
            }
            if i < k {
                assert(!p(s[i]));
            }
        },
        None => {
            assert(!p(s[i]));
        },
    }
}

/// The marks of layer `l`, or none.
pub open spec fn layer_marks(m: MarksView, l: Seq<char>) -> Map<Seq<char>, Seq<char>> {
    if m.contains_key(l) {
        m[l]
    } else {
        Map::empty()
    }
}

/// Whether component `c` has evidence in layer `l`.
pub open spec fn marked(m: MarksView, l: Seq<char>, c: Seq<char>) -> bool {
    m.contains_key(l) && m[l].contains_key(c)
}

/// The ids of `ids`, in order, that `m` has no evidence for.
pub open spec fn unmarked(ids: Seq<Seq<char>>, m: Map<Seq<char>, Seq<char>>) -> Seq<Seq<char>>
    decreases ids.len(),
{
    if ids.len() == 0 {
        Seq::empty()
    } else {
        let r = unmarked(ids.drop_last(), m);
        if m.contains_key(ids.last()) {
            r
        } else {
            r.push(ids.last())
        }
    }
}

/// Whether `i` is an unresolved issue for component `c`.
pub open spec fn open_for(i: IssueView, c: Seq<char>) -> bool {
    i.component == c && !i.resolved
}

/// The test "is an unresolved issue for component `c`".
pub open spec fn open_issue_of(c: Seq<char>) -> spec_fn(IssueView) -> bool {
    |i: IssueView| open_for(i, c)
}

/// The test "is the text `x`".
pub open spec fn is_text(x: Seq<char>) -> spec_fn(Seq<char>) -> bool {
    |y: Seq<char>| y == x
}

/// Whether some issue is unresolved.
pub open spec fn has_open_issue(issues: Seq<IssueView>) -> bool {
    exists|i: int| 0 <= i < issues.len() && !(#[trigger] issues[i]).resolved
}

/// Whether component `c` has an unresolved issue.
pub open spec fn has_open_issue_for(issues: Seq<IssueView>, c: Seq<char>) -> bool {
    exists|i: int| 0 <= i < issues.len() && open_for(#[trigger] issues[i], c)
}

/// `x + 1`, held at `u64::MAX`.
pub open spec fn saturating_inc(x: u64) -> u64 {
    if x == u64::MAX {
        x
    } else {
        (x + 1) as u64
    }
}

/// The empty cursor of an unplanned session.
pub open spec fn unplanned_cursor() -> CursorView {
    CursorView { layer: None, incomplete: Seq::empty(), next: "plan a blueprint"@ }
}

/// A session with no plan, at the given generation and revision.
pub open spec fn fresh_session(id: Seq<char>, generation: u64, revision: u64) -> SessionView {
    SessionView {
        schema: SCHEMA,
        session_id: id,
        phase: Phase::Blueprint,
        generation,
        blueprint: None,
        cursor: unplanned_cursor(),
        marks: Map::empty(),
        issues: Seq::empty(),
        receipts: Seq::empty(),
        proof_generation: None,
        revision,
        input_epochs: Map::empty(),
    }
}

} // verus!
