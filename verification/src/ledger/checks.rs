//! The arguments of a wrapped check: `KIND LABEL [--reason TEXT]... -- COMMAND...`,
//! and the digest that identifies the command.
use vstd::prelude::*;
use crate::digest::{json_list, json_list_text, sha256_hex, text_digest};
use crate::ledger::model::{first_index, is_text, CheckKind, Field, LedgerError, MAX_ID, MAX_TEXT};
use crate::text::{bounded, text_eq, within_bound};

verus! {

/// A parsed check request.
pub struct CheckArgs {
    pub kind: CheckKind,
    pub label: String,
    pub argv: Vec<String>,
    pub reason: Option<String>,
    /// The component a scoped check covers.
    pub component: Option<String>,
}

#[verifier::ext_equal]
pub struct CheckArgsView {
    pub kind: CheckKind,
    pub label: Seq<char>,
    pub argv: Seq<Seq<char>>,
    pub reason: Option<Seq<char>>,
    pub component: Option<Seq<char>>,
}

impl View for CheckArgs {
    type V = CheckArgsView;

    open spec fn view(&self) -> CheckArgsView {
        CheckArgsView {
            kind: self.kind,
            label: self.label@,
            argv: self.argv.deep_view(),
            reason: match self.reason {
                Some(r) => Some(r@),
                None => None,
            },
            component: self.component.deep_view(),
        }
    }
}

/// The check kind a word names, if any.
pub open spec fn kind_named(t: Seq<char>) -> Option<CheckKind> {
    if t == "smoke"@ {
        Some(CheckKind::Smoke)
    } else if t == "whole"@ {
        Some(CheckKind::Whole)
    } else if t == "narrow"@ {
        Some(CheckKind::Narrow)
    } else if t == "safety"@ {
        Some(CheckKind::Safety)
    } else {
        None
    }
}

/// The options between the label (from position `n`) and the separator at
/// `sep`: `--reason` followed by its text, and, under the GraphFather's
/// rules, `--component` followed by an id; the last of each wins.
pub open spec fn scan_options(
    a: Seq<Seq<char>>,
    n: int,
    sep: int,
    graph: bool,
    why: Option<Seq<char>>,
    comp: Option<Seq<char>>,
) -> Result<(Option<Seq<char>>, Option<Seq<char>>), LedgerError>
    decreases sep + 2 - n,
{
    if n >= sep || n < 0 {
        Ok((why, comp))
    } else if a[n] == "--reason"@ {
        if n + 1 >= a.len() {
            Err(LedgerError::ReasonRequiresText)
        } else {
            scan_options(a, n + 2, sep, graph, Some(a[n + 1]), comp)
        }
    } else if graph && a[n] == "--component"@ {
        if n + 1 >= a.len() {
            Err(LedgerError::ComponentRequiresId)
        } else {
            scan_options(a, n + 2, sep, graph, why, Some(a[n + 1]))
        }
    } else {
        Err(LedgerError::UnknownCheckOption)
    }
}

/// The check request that arguments `a` make, or why they make none. Under
/// the GraphFather's rules (`graph`) the label is bounded and a check other
/// than whole may be scoped to a component.
pub open spec fn check_args_of(a: Seq<Seq<char>>, graph: bool) -> Result<CheckArgsView, LedgerError> {
    match first_index(a, is_text("--"@)) {
        None => Err(LedgerError::MissingSeparator),
        Some(sep) => if sep < 2 {
            Err(LedgerError::MissingKindLabel)
        } else if graph && !bounded(a[1], MAX_ID as nat) {
            Err(LedgerError::Bound { field: Field::Label, max: MAX_ID })
        } else if sep + 1 == a.len() {
            Err(LedgerError::MissingCommand)
        } else {
            match scan_options(a, 2, sep, graph, None, None) {
                Err(e) => Err(e),
                Ok((why, comp)) => if a[0] == "safety"@ && !bounded(
                    match why {
                        Some(w) => w,
                        None => Seq::empty(),
                    },
                    MAX_TEXT as nat,
                ) {
                    Err(LedgerError::Bound { field: Field::SafetyReason, max: MAX_TEXT })
                } else {
                    match kind_named(a[0]) {
                        None => Err(LedgerError::InvalidCheckKind),
                        Some(k) => if k == CheckKind::Whole && comp is Some {
                            Err(LedgerError::WholeComponent)
                        } else {
                            Ok(
                                CheckArgsView {
                                    kind: k,
                                    label: a[1],
                                    argv: a.subrange(sep + 1, a.len() as int),
                                    reason: why,
                                    component: comp,
                                },
                            )
                        },
                    }
                },
            }
        },
    }
}

/// Options give a component only under the GraphFather's rules.
proof fn lemma_scan_component(
    a: Seq<Seq<char>>,
    n: int,
    sep: int,
    graph: bool,
    why: Option<Seq<char>>,
    comp: Option<Seq<char>>,
)
    requires
        scan_options(a, n, sep, graph, why, comp) is Ok,
        comp is None,
        !graph,
    ensures
        scan_options(a, n, sep, graph, why, comp)->Ok_0.1 is None,
    decreases sep + 2 - n,
{
    if !(n >= sep || n < 0) && a[n] == "--reason"@ && n + 1 < a.len() {
        lemma_scan_component(a, n + 2, sep, graph, Some(a[n + 1]), comp);
    }
}

/// A check request read from `KIND LABEL ... -- COMMAND...`: the command is
/// every argument after the first `--` and is not empty, the label is the
/// second argument, the kind is the one the first argument names, a whole
/// check is never scoped, a scope needs the GraphFather's rules (which also
/// bound the label), and a safety check carries a bounded reason. Without
/// a `--` there is no request.
pub proof fn law_check_request_shape(a: Seq<Seq<char>>, graph: bool)
    ensures
        (forall|j: int| 0 <= j < a.len() ==> a[j] != "--"@) ==> check_args_of(a, graph)
            == Err::<CheckArgsView, LedgerError>(LedgerError::MissingSeparator),
        check_args_of(a, graph) matches Ok(v) ==> {
            &&& exists|sep: int|
                2 <= sep < a.len() - 1 && a[sep] == "--"@ && (forall|j: int| 0 <= j < sep ==> a[j] != "--"@)
                    && v.argv == a.subrange(sep + 1, a.len() as int)
            &&& v.argv.len() > 0
            &&& v.label == a[1]
            &&& kind_named(a[0]) == Some(v.kind)
            &&& v.kind == CheckKind::Whole ==> v.component is None
            &&& !graph ==> v.component is None
            &&& graph ==> bounded(v.label, MAX_ID as nat)
            &&& v.kind == CheckKind::Safety ==> (v.reason matches Some(w) && bounded(w, MAX_TEXT as nat))
        },
{
    crate::ledger::model::lemma_first_index(a, is_text("--"@));
    match first_index(a, is_text("--"@)) {
        None => {},
        Some(sep) => {
            if check_args_of(a, graph) is Ok {
                assert(is_text("--"@)(a[sep]));
                assert forall|j: int| 0 <= j < sep implies a[j] != "--"@ by {
                    assert(!is_text("--"@)(a[j]));
                }
                if !graph {
                    lemma_scan_component(a, 2, sep, graph, None, None);
                }
                let v = check_args_of(a, graph)->Ok_0;
                assert(v.argv.len() == a.len() - (sep + 1));
                if v.kind == CheckKind::Safety {
                    assert(a[0] == "safety"@) by {
                        reveal_strlit("safety");
                        reveal_strlit("smoke");
                        reveal_strlit("whole");
                        reveal_strlit("narrow");
                    }
                }
            }
        },
    }
    if forall|j: int| 0 <= j < a.len() ==> a[j] != "--"@ {
        if first_index(a, is_text("--"@)) is Some {
            let k = first_index(a, is_text("--"@))->0;
            assert(is_text("--"@)(a[k]));
        }
    }
}

/// The literal words the reading of a check compares against differ.
proof fn lemma_check_words_differ()
    ensures
        "--reason"@ != "--"@,
        "--component"@ != "--"@,
        "--component"@ != "--reason"@,
        "smoke"@ != "--"@,
        "whole"@ != "--"@,
        "narrow"@ != "--"@,
        "safety"@ != "--"@,
        "whole"@ != "safety"@,
{
    reveal_strlit("--reason");
    reveal_strlit("--component");
    reveal_strlit("--");
    reveal_strlit("smoke");
    reveal_strlit("whole");
    reveal_strlit("narrow");
    reveal_strlit("safety");
    assert("--component"@.len() != "--reason"@.len());
    assert("smoke"@.len() != "--"@.len() && "whole"@.len() != "--"@.len());
    assert("narrow"@.len() != "--"@.len() && "safety"@.len() != "--"@.len());
    assert("whole"@.len() != "safety"@.len());
}

/// How the options of a check are read, for any kind word `k`, label `l`
/// and command `cmd`: with no option the request has no reason and no
/// scope (a safety check then needs a reason); `--reason W` gives the
/// reason `W`; under the GraphFather's rules `--component C` scopes any
/// check but a whole one to `C`, and elsewhere that option is unknown.
pub proof fn law_check_options(
    k: Seq<char>,
    l: Seq<char>,
    w: Seq<char>,
    c: Seq<char>,
    cmd: Seq<Seq<char>>,
    graph: bool,
)
    requires
        kind_named(k) is Some,
        l != "--"@,
        w != "--"@,
        c != "--"@,
        cmd.len() > 0,
        graph ==> bounded(l, MAX_ID as nat),
    ensures
        k != "safety"@ ==> check_args_of(seq![k, l, "--"@] + cmd, graph) == Ok::<CheckArgsView, LedgerError>(
            CheckArgsView { kind: kind_named(k)->0, label: l, argv: cmd, reason: None, component: None },
        ),
        k == "safety"@ ==> check_args_of(seq![k, l, "--"@] + cmd, graph) is Err,
        (k == "safety"@ ==> bounded(w, MAX_TEXT as nat)) ==> check_args_of(
            seq![k, l, "--reason"@, w, "--"@] + cmd,
            graph,
        ) == Ok::<CheckArgsView, LedgerError>(
            CheckArgsView { kind: kind_named(k)->0, label: l, argv: cmd, reason: Some(w), component: None },
        ),
        graph && k != "safety"@ && kind_named(k) != Some(CheckKind::Whole) ==> check_args_of(
            seq![k, l, "--component"@, c, "--"@] + cmd,
            graph,
        ) == Ok::<CheckArgsView, LedgerError>(
            CheckArgsView { kind: kind_named(k)->0, label: l, argv: cmd, reason: None, component: Some(c) },
        ),
        graph && kind_named(k) == Some(CheckKind::Whole) ==> check_args_of(
            seq![k, l, "--component"@, c, "--"@] + cmd,
            graph,
        ) == Err::<CheckArgsView, LedgerError>(LedgerError::WholeComponent),
        !graph ==> check_args_of(seq![k, l, "--component"@, c, "--"@] + cmd, graph) == Err::<
            CheckArgsView,
            LedgerError,
        >(LedgerError::UnknownCheckOption),
{
    lemma_check_words_differ();
    assert(k != "--"@);
    let p = is_text("--"@);
    let a0 = seq![k, l, "--"@] + cmd;
    assert(a0[0] == k && a0[1] == l && a0[2] == "--"@);
    crate::ledger::model::lemma_first_index_at(a0, p, 2);
    assert(a0.subrange(3, a0.len() as int) =~= cmd);
    if k == "safety"@ {
        assert(!bounded(Seq::<char>::empty(), MAX_TEXT as nat));
    }
    let a1 = seq![k, l, "--reason"@, w, "--"@] + cmd;
    assert(a1[0] == k && a1[1] == l && a1[2] == "--reason"@ && a1[3] == w && a1[4] == "--"@);
    crate::ledger::model::lemma_first_index_at(a1, p, 4);
    assert(a1.subrange(5, a1.len() as int) =~= cmd);
    assert(scan_options(a1, 4, 4, graph, Some(w), None) == Ok::<(Option<Seq<char>>, Option<Seq<char>>), LedgerError>((Some(w), None)));
    assert(scan_options(a1, 2, 4, graph, None, None) == Ok::<(Option<Seq<char>>, Option<Seq<char>>), LedgerError>((Some(w), None)));
    let a2 = seq![k, l, "--component"@, c, "--"@] + cmd;
    assert(a2[0] == k && a2[1] == l && a2[2] == "--component"@ && a2[3] == c && a2[4] == "--"@);
    crate::ledger::model::lemma_first_index_at(a2, p, 4);
    assert(a2.subrange(5, a2.len() as int) =~= cmd);
    if graph {
        assert(scan_options(a2, 4, 4, graph, None, Some(c)) == Ok::<(Option<Seq<char>>, Option<Seq<char>>), LedgerError>((None, Some(c))));
        assert(scan_options(a2, 2, 4, graph, None, None) == Ok::<(Option<Seq<char>>, Option<Seq<char>>), LedgerError>((None, Some(c))));
    }
}

/// The digest that identifies a command: hexadecimal SHA-256 of its JSON text.
pub open spec fn argv_digest(argv: Seq<Seq<char>>) -> Seq<char> {
    text_digest(json_list_text(argv))
}

fn kind_of(t: &String) -> (r: Option<CheckKind>)
    ensures
        r == kind_named(t@),
{
    if text_eq(t.as_str(), "smoke") {
        Some(CheckKind::Smoke)
    } else if text_eq(t.as_str(), "whole") {
        Some(CheckKind::Whole)
    } else if text_eq(t.as_str(), "narrow") {
        Some(CheckKind::Narrow)
    } else if text_eq(t.as_str(), "safety") {
        Some(CheckKind::Safety)
    } else {
        None
    }
}

/// The texts of `a[start..]`.
fn tail_from(a: &[String], start: usize) -> (r: Vec<String>)
    requires
        start <= a.len(),
    ensures
        r.deep_view() == a.deep_view().subrange(start as int, a.len() as int),
{
    let ghost av = a.deep_view();
    let mut argv: Vec<String> = Vec::new();
    let mut i: usize = start;
    while i < a.len()
        invariant
            start <= i <= a.len(),
            av == a.deep_view(),
            argv.deep_view() =~= av.subrange(start as int, i as int),
        decreases a.len() - i,
    {
        let x = a[i].clone();
        let ghost before = argv.deep_view();
        argv.push(x);
        assert(argv.deep_view() =~= before.push(av[i as int]));
        i = i + 1;
    }
    argv
}

/// The position of the first `--`.
fn find_separator(a: &[String]) -> (r: Option<usize>)
    ensures
        r matches Some(k) ==> first_index(a.deep_view(), is_text("--"@)) == Some(k as int) && k < a.len(),
        r is None ==> first_index(a.deep_view(), is_text("--"@)) is None,
{
    let ghost av = a.deep_view();
    let ghost p = is_text("--"@);
    let mut i: usize = 0;
    while i < a.len()
        invariant
            i <= a.len(),
            av == a.deep_view(),
            p == is_text("--"@),
            forall|j: int| 0 <= j < i ==> !p(#[trigger] av[j]),
        decreases a.len() - i,
    {
        assert(av[i as int] == a@[i as int]@);
        if text_eq(a[i].as_str(), "--") {
            proof {
                crate::ledger::model::lemma_first_index_at(av, p, i as int);
            }
            return Some(i);
        }
        i = i + 1;
    }
    proof {
        crate::ledger::model::lemma_first_index(av, p);
        if first_index(av, p) is Some {
            let n = first_index(av, p)->0;
            assert(p(av[n]));
        }
    }
    None
}

/// Parses `KIND LABEL [--reason TEXT] [--component ID]... -- COMMAND...`
/// (`--component` and a bounded label under the GraphFather's rules).
pub fn check_args(a: &[String], graph: bool) -> (r: Result<CheckArgs, LedgerError>)
    ensures
        match check_args_of(a.deep_view(), graph) {
            Ok(v) => r matches Ok(x) && x@ == v,
            Err(e) => r matches Err(x) && x == e,
        },
{
    let ghost av = a.deep_view();
    let sep = match find_separator(a) {
        None => return Err(LedgerError::MissingSeparator),
        Some(sep) => sep,
    };
    if sep < 2 {
        return Err(LedgerError::MissingKindLabel);
    }
    assert(av[0] == a@[0]@ && av[1] == a@[1]@);
    if graph && !within_bound(a[1].as_str(), MAX_ID) {
        return Err(LedgerError::Bound { field: Field::Label, max: MAX_ID });
    }
    if sep + 1 == a.len() {
        return Err(LedgerError::MissingCommand);
    }
    let mut why: Option<String> = None;
    let mut comp: Option<String> = None;
    let mut n: usize = 2;
    while n < sep
        invariant
            2 <= n <= sep + 1,
            2 <= sep,
            sep + 1 < a.len(),
            av == a.deep_view(),
            first_index(av, is_text("--"@)) == Some(sep as int),
            graph ==> bounded(av[1], MAX_ID as nat),
            av[0] == a@[0]@ && av[1] == a@[1]@,
            scan_options(av, 2, sep as int, graph, None, None) == scan_options(
                av,
                n as int,
                sep as int,
                graph,
                why.deep_view(),
                comp.deep_view(),
            ),
        decreases sep + 2 - n,
    {
        assert(av[n as int] == a@[n as int]@);
        let is_reason = text_eq(a[n].as_str(), "--reason");
        if !is_reason && !(graph && text_eq(a[n].as_str(), "--component")) {
            return Err(LedgerError::UnknownCheckOption);
        }
        n = n + 1;
        if n >= a.len() {
            if is_reason {
                return Err(LedgerError::ReasonRequiresText);
            }
            return Err(LedgerError::ComponentRequiresId);
        }
        assert(av[n as int] == a@[n as int]@);
        if is_reason {
            why = Some(a[n].clone());
        } else {
            comp = Some(a[n].clone());
        }
        n = n + 1;
    }
    let kind_text = &a[0];
    if text_eq(kind_text.as_str(), "safety") {
        let ok = match &why {
            Some(w) => within_bound(w.as_str(), MAX_TEXT),
            None => false,
        };
        if !ok {
            return Err(LedgerError::Bound { field: Field::SafetyReason, max: MAX_TEXT });
        }
    }
    let kind = match kind_of(kind_text) {
        None => return Err(LedgerError::InvalidCheckKind),
        Some(k) => k,
    };
    if kind == CheckKind::Whole && comp.is_some() {
        return Err(LedgerError::WholeComponent);
    }
    let argv = tail_from(a, sep + 1);
    let r = CheckArgs { kind, label: a[1].clone(), argv, reason: why, component: comp };
    assert(r@ =~= check_args_of(av, graph)->Ok_0);
    Ok(r)
}

/// The digest that identifies a command.
pub fn argv_hash(argv: &Vec<String>) -> (r: String)
    ensures
        r@ == argv_digest(argv.deep_view()),
{
    sha256_hex(json_list(argv).as_str())
}

} // verus!
