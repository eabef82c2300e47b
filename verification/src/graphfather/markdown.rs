//! The plan as a Markdown page: objective, position, components with their
//! dependencies, progress per layer, open repair issues and the latest
//! superseded revisions.
use vstd::prelude::*;
use crate::digest::{json_list, json_list_text};
use crate::ledger::model::{marked, Blueprint, BlueprintView, Issue, IssueView, MarksView, Phase, Session, SessionView};
use crate::ledger::session::owned;
use crate::table::Table;
use crate::text::{decimal, decimal_text, has_substring, push_str};

verus! {

/// How many superseded revisions the page lists.
pub const RECENT_REVISIONS: usize = 8;

/// A phase's name.
pub open spec fn phase_name(p: Phase) -> Seq<char> {
    match p {
        Phase::Blueprint => "blueprint"@,
        Phase::Build => "build"@,
        Phase::Proof => "proof"@,
        Phase::Repair => "repair"@,
        Phase::Complete => "complete"@,
    }
}

/// The JSON list of a component's prerequisites (`[]` when it has none listed).
pub open spec fn deps_text(b: BlueprintView, c: Seq<char>) -> Seq<char> {
    if b.dependencies.contains_key(c) {
        json_list_text(b.dependencies[c])
    } else {
        "[]"@
    }
}

/// One line per component, naming its prerequisites.
pub open spec fn component_lines(b: BlueprintView, cs: Seq<Seq<char>>) -> Seq<char>
    decreases cs.len(),
{
    if cs.len() == 0 {
        Seq::empty()
    } else {
        component_lines(b, cs.drop_last()) + "- "@ + cs.last() + " (dependencies: "@ + deps_text(
            b,
            cs.last(),
        ) + ")\n"@
    }
}

/// A component's checkbox line in layer `l`, with its evidence when marked.
pub open spec fn mark_line(m: MarksView, l: Seq<char>, c: Seq<char>) -> Seq<char> {
    if marked(m, l, c) {
        "- [x] "@ + c + ": "@ + m[l][c] + "\n"@
    } else {
        "- [ ] "@ + c + "\n"@
    }
}

/// The checkbox lines of components `cs` in layer `l`.
pub open spec fn mark_lines(m: MarksView, l: Seq<char>, cs: Seq<Seq<char>>) -> Seq<char>
    decreases cs.len(),
{
    if cs.len() == 0 {
        Seq::empty()
    } else {
        mark_lines(m, l, cs.drop_last()) + mark_line(m, l, cs.last())
    }
}

/// One section per layer in `ls`, each listing components `cs`.
pub open spec fn layer_sections(m: MarksView, cs: Seq<Seq<char>>, ls: Seq<Seq<char>>) -> Seq<char>
    decreases ls.len(),
{
    if ls.len() == 0 {
        Seq::empty()
    } else {
        layer_sections(m, cs, ls.drop_last()) + "### "@ + ls.last() + "\n\n"@ + mark_lines(
            m,
            ls.last(),
            cs,
        ) + "\n"@
    }
}

/// One line per unresolved issue.
pub open spec fn issue_lines(is: Seq<IssueView>) -> Seq<char>
    decreases is.len(),
{
    if is.len() == 0 {
        Seq::empty()
    } else if is.last().resolved {
        issue_lines(is.drop_last())
    } else {
        issue_lines(is.drop_last()) + "- "@ + is.last().component + ": "@ + is.last().reason + "\n"@
    }
}

/// The last superseded revisions, oldest first.
pub open spec fn recent(h: Seq<(u64, Seq<char>)>) -> Seq<(u64, Seq<char>)> {
    if h.len() <= RECENT_REVISIONS {
        h
    } else {
        h.skip(h.len() - RECENT_REVISIONS)
    }
}

/// One line per superseded revision, with its reason.
pub open spec fn history_lines(h: Seq<(u64, Seq<char>)>) -> Seq<char>
    decreases h.len(),
{
    if h.len() == 0 {
        Seq::empty()
    } else {
        history_lines(h.drop_last()) + "- revision "@ + decimal_text(h.last().0 as nat) + ": "@
            + h.last().1 + "\n"@
    }
}

/// The plan page of session `s`, given its superseded revisions `h` (each a
/// revision number and the reason it was replaced), oldest first.
pub open spec fn plan_markdown(s: SessionView, h: Seq<(u64, Seq<char>)>) -> Seq<char> {
    "# the graphfather plan\n\n## objective\n"@ + match s.blueprint {
        Some(b) => b.objective,
        None => "unplanned"@,
    } + "\n\nrevision: "@ + decimal_text(s.revision as nat) + "\nphase: "@ + phase_name(s.phase)
        + "\nexact next action: "@ + s.cursor.next + "\n\n"@ + match s.blueprint {
        Some(b) => "## components\n"@ + component_lines(b, b.components) + "\n## layer progress\n"@
            + layer_sections(s.marks, b.components, b.layers),
        None => Seq::empty(),
    } + "\n## open repair issues\n"@ + issue_lines(s.issues) + if h.len() == 0 {
        Seq::empty()
    } else {
        "\n## recent superseded revisions\n"@ + history_lines(recent(h))
    }
}

/// How the page lists one repair issue.
pub open spec fn issue_line(i: IssueView) -> Seq<char> {
    "- "@ + i.component + ": "@ + i.reason + "\n"@
}

/// Text around a substring keeps it.
proof fn lemma_substring_within(s: Seq<char>, p: Seq<char>, a: Seq<char>, b: Seq<char>)
    requires
        has_substring(s, p),
    ensures
        has_substring(a + s + b, p),
{
    let i = choose|i: int| 0 <= i && i + p.len() <= s.len() && #[trigger] s.subrange(i, i + p.len()) == p;
    let t = a + s + b;
    assert(t.subrange(i + a.len(), i + a.len() + p.len()) =~= s.subrange(i, i + p.len()));
}

/// Each unresolved issue has its line among the issue lines.
proof fn lemma_issue_listed(xs: Seq<IssueView>, k: int)
    requires
        0 <= k < xs.len(),
        !xs[k].resolved,
    ensures
        has_substring(issue_lines(xs), issue_line(xs[k])),
    decreases xs.len(),
{
    let d = xs.drop_last();
    if k == xs.len() - 1 {
        let line = issue_line(xs[k]);
        assert(issue_lines(xs) =~= issue_lines(d) + line);
        assert(issue_lines(xs).subrange(issue_lines(d).len() as int, (issue_lines(d).len() + line.len()) as int) =~= line);
    } else {
        assert(d[k] == xs[k]);
        lemma_issue_listed(d, k);
        if xs.last().resolved {
        } else {
            lemma_substring_within(issue_lines(d), issue_line(xs[k]), Seq::empty(), issue_line(xs.last()));
            assert(issue_lines(xs) =~= Seq::<char>::empty() + issue_lines(d) + issue_line(xs.last()));
        }
    }
}

/// The page lists every unresolved repair issue as `- component: reason`.
pub proof fn law_page_lists_every_open_issue(s: SessionView, h: Seq<(u64, Seq<char>)>, k: int)
    requires
        0 <= k < s.issues.len(),
        !s.issues[k].resolved,
    ensures
        has_substring(plan_markdown(s, h), issue_line(s.issues[k])),
{
    lemma_issue_listed(s.issues, k);
    let page = plan_markdown(s, h);
    let lines = issue_lines(s.issues);
    let before = "# the graphfather plan\n\n## objective\n"@ + match s.blueprint {
        Some(b) => b.objective,
        None => "unplanned"@,
    } + "\n\nrevision: "@ + decimal_text(s.revision as nat) + "\nphase: "@ + phase_name(s.phase)
        + "\nexact next action: "@ + s.cursor.next + "\n\n"@ + match s.blueprint {
        Some(b) => "## components\n"@ + component_lines(b, b.components) + "\n## layer progress\n"@
            + layer_sections(s.marks, b.components, b.layers),
        None => Seq::empty(),
    } + "\n## open repair issues\n"@;
    let after = if h.len() == 0 {
        Seq::<char>::empty()
    } else {
        "\n## recent superseded revisions\n"@ + history_lines(recent(h))
    };
    assert(page =~= before + lines + after);
    lemma_substring_within(lines, issue_line(s.issues[k]), before, after);
}

/// Each component's line, naming its prerequisites, is among the lines.
proof fn lemma_component_listed(b: BlueprintView, cs: Seq<Seq<char>>, k: int)
    requires
        0 <= k < cs.len(),
    ensures
        has_substring(component_lines(b, cs), "- "@ + cs[k] + " (dependencies: "@ + deps_text(b, cs[k]) + ")\n"@),
    decreases cs.len(),
{
    let d = cs.drop_last();
    let line = "- "@ + cs[k] + " (dependencies: "@ + deps_text(b, cs[k]) + ")\n"@;
    if k == cs.len() - 1 {
        assert(component_lines(b, cs) =~= component_lines(b, d) + line);
        assert(component_lines(b, cs).subrange(
            component_lines(b, d).len() as int,
            (component_lines(b, d).len() + line.len()) as int,
        ) =~= line);
    } else {
        assert(d[k] == cs[k]);
        lemma_component_listed(b, d, k);
        let last = "- "@ + cs.last() + " (dependencies: "@ + deps_text(b, cs.last()) + ")\n"@;
        lemma_substring_within(component_lines(b, d), line, Seq::empty(), last);
        assert(component_lines(b, cs) =~= Seq::<char>::empty() + component_lines(b, d) + last);
    }
}

/// Each component's checkbox line is among a layer's lines.
proof fn lemma_mark_listed(m: MarksView, l: Seq<char>, cs: Seq<Seq<char>>, k: int)
    requires
        0 <= k < cs.len(),
    ensures
        has_substring(mark_lines(m, l, cs), mark_line(m, l, cs[k])),
    decreases cs.len(),
{
    let d = cs.drop_last();
    if k == cs.len() - 1 {
        let line = mark_line(m, l, cs[k]);
        assert(mark_lines(m, l, cs).subrange(
            mark_lines(m, l, d).len() as int,
            (mark_lines(m, l, d).len() + line.len()) as int,
        ) =~= line);
    } else {
        assert(d[k] == cs[k]);
        lemma_mark_listed(m, l, d, k);
        lemma_substring_within(mark_lines(m, l, d), mark_line(m, l, cs[k]), Seq::empty(), mark_line(m, l, cs.last()));
        assert(mark_lines(m, l, cs) =~= Seq::<char>::empty() + mark_lines(m, l, d) + mark_line(m, l, cs.last()));
    }
}

/// Each layer's section holds each component's checkbox line.
proof fn lemma_section_listed(m: MarksView, cs: Seq<Seq<char>>, ls: Seq<Seq<char>>, i: int, k: int)
    requires
        0 <= i < ls.len(),
        0 <= k < cs.len(),
    ensures
        has_substring(layer_sections(m, cs, ls), mark_line(m, ls[i], cs[k])),
    decreases ls.len(),
{
    let d = ls.drop_last();
    lemma_mark_listed(m, ls[i], cs, k);
    if i == ls.len() - 1 {
        let head = layer_sections(m, cs, d) + "### "@ + ls.last() + "\n\n"@;
        lemma_substring_within(mark_lines(m, ls.last(), cs), mark_line(m, ls[i], cs[k]), head, "\n"@);
        assert(layer_sections(m, cs, ls) =~= head + mark_lines(m, ls.last(), cs) + "\n"@);
    } else {
        assert(d[i] == ls[i]);
        lemma_section_listed(m, cs, d, i, k);
        let tail = "### "@ + ls.last() + "\n\n"@ + mark_lines(m, ls.last(), cs) + "\n"@;
        lemma_substring_within(layer_sections(m, cs, d), mark_line(m, ls[i], cs[k]), Seq::empty(), tail);
        assert(layer_sections(m, cs, ls) =~= Seq::<char>::empty() + layer_sections(m, cs, d) + tail);
    }
}

/// A planned session's page lists every component with its prerequisites,
/// and, for every layer, every component checked `[x]` with its evidence
/// when it is marked in that layer, else unchecked `[ ]`.
pub proof fn law_page_shows_progress(s: SessionView, h: Seq<(u64, Seq<char>)>, i: int, k: int)
    requires
        s.blueprint is Some,
        0 <= i < s.blueprint->0.layers.len(),
        0 <= k < s.blueprint->0.components.len(),
    ensures
        ({
            let b = s.blueprint->0;
            let c = b.components[k];
            let l = b.layers[i];
            &&& has_substring(plan_markdown(s, h), "- "@ + c + " (dependencies: "@ + deps_text(b, c) + ")\n"@)
            &&& marked(s.marks, l, c) ==> has_substring(plan_markdown(s, h), "- [x] "@ + c + ": "@ + s.marks[l][c] + "\n"@)
            &&& !marked(s.marks, l, c) ==> has_substring(plan_markdown(s, h), "- [ ] "@ + c + "\n"@)
        }),
{
    let b = s.blueprint->0;
    let c = b.components[k];
    let l = b.layers[i];
    let head = "# the graphfather plan\n\n## objective\n"@ + b.objective + "\n\nrevision: "@ + decimal_text(
        s.revision as nat,
    ) + "\nphase: "@ + phase_name(s.phase) + "\nexact next action: "@ + s.cursor.next + "\n\n"@;
    let comps = component_lines(b, b.components);
    let layers = layer_sections(s.marks, b.components, b.layers);
    let tail = "\n## open repair issues\n"@ + issue_lines(s.issues) + if h.len() == 0 {
        Seq::<char>::empty()
    } else {
        "\n## recent superseded revisions\n"@ + history_lines(recent(h))
    };
    let page = plan_markdown(s, h);
    lemma_component_listed(b, b.components, k);
    assert(page =~= (head + "## components\n"@) + comps + ("\n## layer progress\n"@ + layers + tail));
    lemma_substring_within(comps, "- "@ + c + " (dependencies: "@ + deps_text(b, c) + ")\n"@, head + "## components\n"@, "\n## layer progress\n"@ + layers + tail);
    lemma_section_listed(s.marks, b.components, b.layers, i, k);
    assert(page =~= (head + "## components\n"@ + comps + "\n## layer progress\n"@) + layers + tail);
    lemma_substring_within(layers, mark_line(s.marks, l, c), head + "## components\n"@ + comps + "\n## layer progress\n"@, tail);
}

/// Resolved issues are not listed: with every issue resolved, the open
/// repair issues section is empty.
pub proof fn law_resolved_issues_not_listed(xs: Seq<IssueView>)
    requires
        forall|k: int| 0 <= k < xs.len() ==> (#[trigger] xs[k]).resolved,
    ensures
        issue_lines(xs) == Seq::<char>::empty(),
    decreases xs.len(),
{
    if xs.len() > 0 {
        assert(xs[xs.len() - 1].resolved);
        let d = xs.drop_last();
        assert forall|k: int| 0 <= k < d.len() implies (#[trigger] d[k]).resolved by {
            assert(d[k] == xs[k]);
        }
        law_resolved_issues_not_listed(d);
    }
}

/// The issue lines of two lists of issues, one after the other, are those
/// of the first followed by those of the second.
proof fn lemma_issue_lines_append(a: Seq<IssueView>, b: Seq<IssueView>)
    ensures
        issue_lines(a + b) == issue_lines(a) + issue_lines(b),
    decreases b.len(),
{
    if b.len() == 0 {
        assert(a + b =~= a);
        assert(issue_lines(a) + issue_lines(b) =~= issue_lines(a));
    } else {
        lemma_issue_lines_append(a, b.drop_last());
        assert((a + b).drop_last() =~= a + b.drop_last());
        assert((a + b).last() == b.last());
        if !b.last().resolved {
            assert(issue_lines(a + b) =~= issue_lines(a) + issue_lines(b));
        }
    }
}

/// The open repair issues section lists the issues in their order, each
/// unresolved one as `- component: reason` and each resolved one not at
/// all: a single issue gives its line or nothing, and the lines of a list
/// are those of its parts in order. So a resolved issue anywhere in the
/// list changes nothing.
pub proof fn law_issue_section_lines(a: Seq<IssueView>, b: Seq<IssueView>, x: IssueView)
    ensures
        issue_lines(seq![x]) == if x.resolved {
            Seq::<char>::empty()
        } else {
            "- "@ + x.component + ": "@ + x.reason + "\n"@
        },
        issue_lines(a + b) == issue_lines(a) + issue_lines(b),
        x.resolved ==> issue_lines(a + seq![x] + b) == issue_lines(a + b),
{
    let e = Seq::<IssueView>::empty();
    assert(issue_lines(e) == Seq::<char>::empty());
    assert(seq![x].drop_last() =~= e);
    assert(seq![x].last() == x);
    assert(issue_lines(seq![x]) == if x.resolved {
        issue_lines(e)
    } else {
        issue_lines(e) + "- "@ + x.component + ": "@ + x.reason + "\n"@
    });
    if !x.resolved {
        assert(issue_lines(seq![x]) =~= "- "@ + x.component + ": "@ + x.reason + "\n"@);
    }
    lemma_issue_lines_append(a, b);
    lemma_issue_lines_append(a, seq![x]);
    lemma_issue_lines_append(a + seq![x], b);
    if x.resolved {
        assert(issue_lines(a) + issue_lines(seq![x]) =~= issue_lines(a));
    }
}

proof fn lemma_history_lines_append(a: Seq<(u64, Seq<char>)>, b: Seq<(u64, Seq<char>)>)
    ensures
        history_lines(a + b) == history_lines(a) + history_lines(b),
    decreases b.len(),
{
    if b.len() == 0 {
        assert(a + b =~= a);
        assert(history_lines(a) + history_lines(b) =~= history_lines(a));
    } else {
        lemma_history_lines_append(a, b.drop_last());
        assert((a + b).drop_last() =~= a + b.drop_last());
        assert((a + b).last() == b.last());
        assert(history_lines(a + b) =~= history_lines(a) + history_lines(b));
    }
}

/// The superseded revisions are listed in their order, one line each:
/// `- revision N: reason`.
pub proof fn law_history_section_lines(a: Seq<(u64, Seq<char>)>, b: Seq<(u64, Seq<char>)>, n: u64, why: Seq<char>)
    ensures
        history_lines(seq![(n, why)]) == "- revision "@ + decimal_text(n as nat) + ": "@ + why + "\n"@,
        history_lines(a + b) == history_lines(a) + history_lines(b),
{
    let e = Seq::<(u64, Seq<char>)>::empty();
    assert(history_lines(e) == Seq::<char>::empty());
    assert(seq![(n, why)].drop_last() =~= e);
    assert(seq![(n, why)].last() == (n, why));
    assert(history_lines(seq![(n, why)]) =~= "- revision "@ + decimal_text(n as nat) + ": "@ + why + "\n"@);
    lemma_history_lines_append(a, b);
}

/// The page lists the last eight superseded revisions, or all of them when
/// there are fewer, in their order.
pub proof fn law_recent_revisions(h: Seq<(u64, Seq<char>)>)
    ensures
        recent(h).len() == if h.len() <= RECENT_REVISIONS {
            h.len() as int
        } else {
            RECENT_REVISIONS as int
        },
        recent(h) == h.subrange(h.len() - recent(h).len(), h.len() as int),
{
    if h.len() <= RECENT_REVISIONS {
        assert(h.subrange(0, h.len() as int) =~= h);
    } else {
        assert(h.skip(h.len() - RECENT_REVISIONS) =~= h.subrange(h.len() - RECENT_REVISIONS, h.len() as int));
    }
}

/// The views of a revision history.
pub open spec fn history_view(h: Seq<(u64, String)>) -> Seq<(u64, Seq<char>)> {
    h.map_values(|x: (u64, String)| (x.0, x.1@))
}

fn phase_word(p: Phase) -> (r: String)
    ensures
        r@ == phase_name(p),
{
    match p {
        Phase::Blueprint => owned("blueprint"),
        Phase::Build => owned("build"),
        Phase::Proof => owned("proof"),
        Phase::Repair => owned("repair"),
        Phase::Complete => owned("complete"),
    }
}

fn component_block(b: &Blueprint) -> (r: String)
    ensures
        r@ == component_lines(b@, b@.components),
{
    let ghost cs = b@.components;
    let mut r = String::new();
    let mut i: usize = 0;
    while i < b.components.len()
        invariant
            i <= b.components.len(),
            cs == b.components.deep_view(),
            r@ == component_lines(b@, cs.take(i as int)),
        decreases b.components.len() - i,
    {
        let c = &b.components[i];
        assert(cs.take(i + 1).drop_last() =~= cs.take(i as int));
        assert(cs.take(i + 1).last() == c@);
        push_str(&mut r, "- ");
        push_str(&mut r, c.as_str());
        push_str(&mut r, " (dependencies: ");
        match b.dependencies.get(c) {
            Some(d) => push_str(&mut r, json_list(d).as_str()),
            None => push_str(&mut r, "[]"),
        }
        push_str(&mut r, ")\n");
        i = i + 1;
        assert(r@ =~= component_lines(b@, cs.take(i as int)));
    }
    assert(cs.take(b.components.len() as int) =~= cs);
    r
}

fn mark_block(marks: &Table<Table<String>>, l: &String, cs: &Vec<String>) -> (r: String)
    ensures
        r@ == mark_lines(marks@, l@, cs.deep_view()),
{
    let ghost cv = cs.deep_view();
    let layer = marks.get(l);
    let mut r = String::new();
    let mut i: usize = 0;
    while i < cs.len()
        invariant
            i <= cs.len(),
            cv == cs.deep_view(),
            layer is Some == marks@.contains_key(l@),
            layer is Some ==> layer->0.deep_view() == marks@[l@],
            r@ == mark_lines(marks@, l@, cv.take(i as int)),
        decreases cs.len() - i,
    {
        let c = &cs[i];
        assert(cv.take(i + 1).drop_last() =~= cv.take(i as int));
        assert(cv.take(i + 1).last() == c@);
        let ev = match layer {
            Some(m) => m.get(c),
            None => None,
        };
        match ev {
            Some(e) => {
                push_str(&mut r, "- [x] ");
                push_str(&mut r, c.as_str());
                push_str(&mut r, ": ");
                push_str(&mut r, e.as_str());
                push_str(&mut r, "\n");
            },
            None => {
                push_str(&mut r, "- [ ] ");
                push_str(&mut r, c.as_str());
                push_str(&mut r, "\n");
            },
        }
        i = i + 1;
        assert(r@ =~= mark_lines(marks@, l@, cv.take(i as int)));
    }
    assert(cv.take(cs.len() as int) =~= cv);
    r
}

fn layer_block(marks: &Table<Table<String>>, b: &Blueprint) -> (r: String)
    ensures
        r@ == layer_sections(marks@, b@.components, b@.layers),
{
    let ghost ls = b@.layers;
    let mut r = String::new();
    let mut i: usize = 0;
    while i < b.layers.len()
        invariant
            i <= b.layers.len(),
            ls == b.layers.deep_view(),
            r@ == layer_sections(marks@, b@.components, ls.take(i as int)),
        decreases b.layers.len() - i,
    {
        let l = &b.layers[i];
        assert(ls.take(i + 1).drop_last() =~= ls.take(i as int));
        assert(ls.take(i + 1).last() == l@);
        push_str(&mut r, "### ");
        push_str(&mut r, l.as_str());
        push_str(&mut r, "\n\n");
        push_str(&mut r, mark_block(marks, l, &b.components).as_str());
        push_str(&mut r, "\n");
        i = i + 1;
        assert(r@ =~= layer_sections(marks@, b@.components, ls.take(i as int)));
    }
    assert(ls.take(b.layers.len() as int) =~= ls);
    r
}

fn issue_block(issues: &Vec<Issue>) -> (r: String)
    ensures
        r@ == issue_lines(issues@.map_values(|i: Issue| i@)),
{
    let ghost iv = issues@.map_values(|i: Issue| i@);
    let mut r = String::new();
    let mut k: usize = 0;
    while k < issues.len()
        invariant
            k <= issues.len(),
            iv == issues@.map_values(|i: Issue| i@),
            r@ == issue_lines(iv.take(k as int)),
        decreases issues.len() - k,
    {
        let x = &issues[k];
        assert(iv.take(k + 1).drop_last() =~= iv.take(k as int));
        assert(iv.take(k + 1).last() == x@);
        if !x.resolved {
            push_str(&mut r, "- ");
            push_str(&mut r, x.component.as_str());
            push_str(&mut r, ": ");
            push_str(&mut r, x.reason.as_str());
            push_str(&mut r, "\n");
        }
        k = k + 1;
        assert(r@ =~= issue_lines(iv.take(k as int)));
    }
    assert(iv.take(issues.len() as int) =~= iv);
    r
}

fn history_block(h: &[(u64, String)]) -> (r: String)
    ensures
        r@ == history_lines(recent(history_view(h@))),
{
    let ghost hv = history_view(h@);
    let start: usize = if h.len() <= RECENT_REVISIONS {
        0
    } else {
        h.len() - RECENT_REVISIONS
    };
    let ghost rv = recent(hv);
    assert(rv =~= hv.skip(start as int));
    let mut r = String::new();
    let mut i: usize = start;
    while i < h.len()
        invariant
            start <= i <= h.len(),
            hv == history_view(h@),
            rv == hv.skip(start as int),
            r@ == history_lines(rv.take(i - start)),
        decreases h.len() - i,
    {
        assert(rv.take(i + 1 - start).drop_last() =~= rv.take(i - start));
        assert(rv.take(i + 1 - start).last() == (h@[i as int].0, h@[i as int].1@));
        push_str(&mut r, "- revision ");
        push_str(&mut r, decimal(h[i].0).as_str());
        push_str(&mut r, ": ");
        push_str(&mut r, h[i].1.as_str());
        push_str(&mut r, "\n");
        i = i + 1;
        assert(r@ =~= history_lines(rv.take(i - start)));
    }
    assert(rv.take(h.len() - start) =~= rv);
    r
}

/// The plan page of a session, given its superseded revisions (each a
/// revision number and the reason it was replaced), oldest first.
pub fn render(s: &Session, history: &[(u64, String)]) -> (r: String)
    ensures
        r@ == plan_markdown(s@, history_view(history@)),
{
    let mut t = owned("# the graphfather plan\n\n## objective\n");
    match &s.blueprint {
        Some(b) => push_str(&mut t, b.objective.as_str()),
        None => push_str(&mut t, "unplanned"),
    }
    push_str(&mut t, "\n\nrevision: ");
    push_str(&mut t, decimal(s.revision).as_str());
    push_str(&mut t, "\nphase: ");
    push_str(&mut t, phase_word(s.phase).as_str());
    push_str(&mut t, "\nexact next action: ");
    push_str(&mut t, s.cursor.next.as_str());
    push_str(&mut t, "\n\n");
    match &s.blueprint {
        Some(b) => {
            push_str(&mut t, "## components\n");
            push_str(&mut t, component_block(b).as_str());
            push_str(&mut t, "\n## layer progress\n");
            push_str(&mut t, layer_block(&s.marks, b).as_str());
        },
        None => {},
    }
    push_str(&mut t, "\n## open repair issues\n");
    push_str(&mut t, issue_block(&s.issues).as_str());
    if history.len() > 0 {
        push_str(&mut t, "\n## recent superseded revisions\n");
        push_str(&mut t, history_block(history).as_str());
    }
    assert(t@ =~= plan_markdown(s@, history_view(history@)));
    t
}

} // verus!
