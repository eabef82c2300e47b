//! Reading which session a handoff note continues: the note's `## Scope`
//! section names it on a `- graphfather session: ` line, or else on a
//! `- current session: ` line.
use vstd::prelude::*;
use crate::ledger::model::{Session, SessionView, MAX_ID};
use crate::text::{begins_with, bounded, chars_of, lead_count, string_of, text_eq, trail_count, trim, trim_text, trimmed_char, within_bound, TrimSet};

verus! {

/// `p` occurs in `s` at `i`.
pub open spec fn occurs_at(s: Seq<char>, p: Seq<char>, i: int) -> bool {
    0 <= i && i + p.len() <= s.len() && s.subrange(i, i + p.len()) == p
}

/// The first place at or after `i` where `p` occurs in `s`.
pub open spec fn find_from(s: Seq<char>, p: Seq<char>, i: int) -> Option<int>
    decreases s.len() + 1 - i,
{
    if i < 0 || i + p.len() > s.len() {
        None
    } else if occurs_at(s, p, i) {
        Some(i)
    } else {
        find_from(s, p, i + 1)
    }
}

/// What follows the first `p` in `s` (as the second half of `str::split_once`).
pub open spec fn after_first(s: Seq<char>, p: Seq<char>) -> Option<Seq<char>> {
    match find_from(s, p, 0) {
        Some(i) => Some(s.subrange(i + p.len(), s.len() as int)),
        None => None,
    }
}

/// What precedes the first `p` in `s` (as the first half of `str::split_once`).
pub open spec fn before_first(s: Seq<char>, p: Seq<char>) -> Option<Seq<char>> {
    match find_from(s, p, 0) {
        Some(i) => Some(s.subrange(0, i)),
        None => None,
    }
}

/// The pieces of `s` between line feeds.
pub open spec fn lines_of(s: Seq<char>) -> Seq<Seq<char>>
    decreases s.len(),
{
    if s.len() == 0 {
        seq![Seq::empty()]
    } else {
        let p = lines_of(s.drop_last());
        if s.last() == '\n' {
            p.push(Seq::empty())
        } else {
            p.update(p.len() - 1, p.last().push(s.last()))
        }
    }
}

/// The value a line gives after `key`: the rest of the line without
/// surrounding white space, if the line starts with `key` and the rest is
/// not blank.
pub open spec fn named_value(line: Seq<char>, key: Seq<char>) -> Option<Seq<char>> {
    if begins_with(line, key) {
        let v = trim_text(line.subrange(key.len() as int, line.len() as int), TrimSet::White);
        if v.len() > 0 {
            Some(v)
        } else {
            None
        }
    } else {
        None
    }
}

/// The first value that a line from `i` on gives after `key`.
pub open spec fn first_named(lines: Seq<Seq<char>>, key: Seq<char>, i: int) -> Option<Seq<char>>
    decreases lines.len() - i,
{
    if i < 0 || i >= lines.len() {
        None
    } else {
        match named_value(lines[i], key) {
            Some(v) => Some(v),
            None => first_named(lines, key, i + 1),
        }
    }
}

/// The scope section of a handoff note: what lies between the first
/// `## Scope` line and the next `## Objective` line.
pub open spec fn handoff_scope(note: Seq<char>) -> Option<Seq<char>> {
    match after_first(note, "## Scope\n"@) {
        Some(rest) => before_first(rest, "\n## Objective"@),
        None => None,
    }
}

/// The session a handoff note continues: `None` when it has no scope
/// section, `Some(None)` when the scope names no session.
pub open spec fn handoff_session_of(note: Seq<char>) -> Option<Option<Seq<char>>> {
    match handoff_scope(note) {
        None => None,
        Some(scope) => Some(
            match first_named(lines_of(scope), "- graphfather session: "@, 0) {
                Some(v) => Some(v),
                None => first_named(lines_of(scope), "- current session: "@, 0),
            },
        ),
    }
}

/// What the search finds is an occurrence, and the first one.
proof fn lemma_find_from(s: Seq<char>, p: Seq<char>, i: int)
    ensures
        find_from(s, p, i) matches Some(k) ==> occurs_at(s, p, k) && i <= k && forall|j: int| i <= j < k ==> !occurs_at(s, p, j),
        find_from(s, p, i) is None && i >= 0 ==> forall|j: int| i <= j ==> !#[trigger] occurs_at(s, p, j),
    decreases s.len() + 1 - i,
{
    if !(i < 0 || i + p.len() > s.len()) && !occurs_at(s, p, i) {
        lemma_find_from(s, p, i + 1);
    }
}

/// A value read after a key is never blank.
proof fn lemma_first_named_nonblank(lines: Seq<Seq<char>>, key: Seq<char>, i: int)
    ensures
        first_named(lines, key, i) matches Some(v) ==> v.len() > 0,
    decreases lines.len() - i,
{
    if 0 <= i < lines.len() && named_value(lines[i], key) is None {
        lemma_first_named_nonblank(lines, key, i + 1);
    }
}

/// A note with no `## Scope` line names no session; a named session is
/// never blank, and a `- graphfather session:` line wins over a
/// `- current session:` line.
pub proof fn law_handoff_reading(note: Seq<char>)
    ensures
        (forall|j: int| !#[trigger] occurs_at(note, "## Scope\n"@, j)) ==> handoff_session_of(note) is None,
        handoff_session_of(note) matches Some(Some(v)) ==> v.len() > 0,
        match handoff_scope(note) {
            Some(scope) => match first_named(lines_of(scope), "- graphfather session: "@, 0) {
                Some(v) => handoff_session_of(note) == Some(Some(v)),
                None => true,
            },
            None => true,
        },
{
    lemma_find_from(note, "## Scope\n"@, 0);
    match handoff_scope(note) {
        Some(scope) => {
            lemma_first_named_nonblank(lines_of(scope), "- graphfather session: "@, 0);
            lemma_first_named_nonblank(lines_of(scope), "- current session: "@, 0);
        },
        None => {},
    }
}

/// A text without line feeds is a single line.
proof fn lemma_one_line(s: Seq<char>)
    requires
        forall|i: int| 0 <= i < s.len() ==> s[i] != '\n',
    ensures
        lines_of(s) == seq![s],
    decreases s.len(),
{
    if s.len() > 0 {
        let d = s.drop_last();
        assert forall|i: int| 0 <= i < d.len() implies d[i] != '\n' by {
            assert(d[i] == s[i]);
        }
        lemma_one_line(d);
        assert(s.last() != '\n');
        assert(d.push(s.last()) =~= s);
        assert(seq![d].update(0, d.push(s.last())) =~= seq![s]);
    } else {
        assert(s =~= Seq::<char>::empty());
    }
}

/// A text that starts with `p` finds `p` first at its start.
proof fn lemma_found_at_start(s: Seq<char>, p: Seq<char>)
    requires
        begins_with(s, p),
    ensures
        find_from(s, p, 0) == Some(0int),
{
}

/// The session a handoff note names: for a note whose scope section is a
/// single line `- graphfather session: ID` (or `- current session: ID`),
/// with `ID` on one line and without surrounding white space, the note
/// continues session `ID`, whatever follows its `## Objective` line.
pub proof fn law_handoff_names_session(id: Seq<char>, rest: Seq<char>, graph_line: bool)
    requires
        id.len() > 0,
        forall|i: int| 0 <= i < id.len() ==> id[i] != '\n',
        !trimmed_char(TrimSet::White, id[0]),
        !trimmed_char(TrimSet::White, id.last()),
    ensures
        ({
            let key = if graph_line {
                "- graphfather session: "@
            } else {
                "- current session: "@
            };
            handoff_session_of("## Scope\n"@ + key + id + "\n## Objective"@ + rest) == Some(Some(id))
        }),
{
    reveal_strlit("- graphfather session: ");
    reveal_strlit("- current session: ");
    reveal_strlit("\n## Objective");
    let g = "- graphfather session: "@;
    let key = if graph_line { g } else { "- current session: "@ };
    let head = "## Scope\n"@;
    let end = "\n## Objective"@;
    let note = head + key + id + end + rest;
    assert(note =~= head + (key + id + end + rest));
    assert(begins_with(note, head)) by {
        assert(note.subrange(0, head.len() as int) =~= head);
    }
    lemma_found_at_start(note, head);
    let r = note.subrange(head.len() as int, note.len() as int);
    assert(r =~= key + id + end + rest);
    assert(after_first(note, head) == Some(r));
    let line = key + id;
    assert forall|i: int| 0 <= i < line.len() implies line[i] != '\n' by {
        if i < key.len() {
            assert(line[i] == key[i]);
        } else {
            assert(line[i] == id[i - key.len()]);
        }
    }
    let n = line.len() as int;
    assert(occurs_at(r, end, n)) by {
        assert(r.subrange(n, n + end.len()) =~= end);
    }
    lemma_find_from(r, end, 0);
    assert forall|j: int| 0 <= j < n implies !occurs_at(r, end, j) by {
        if occurs_at(r, end, j) {
            assert(r.subrange(j, j + end.len())[0] == end[0]);
            assert(r[j] == line[j]);
        }
    }
    assert(find_from(r, end, 0) == Some(n));
    assert(r.subrange(0, n) =~= line);
    assert(handoff_scope(note) == Some(line));
    lemma_one_line(line);
    assert(line.subrange(0, key.len() as int) =~= key);
    assert(line.subrange(key.len() as int, line.len() as int) =~= id);
    assert(lead_count(id, TrimSet::White) == 0);
    assert(trail_count(id, TrimSet::White) == 0);
    assert(trim_text(id, TrimSet::White) =~= id);
    assert(named_value(line, key) == Some(id));
    assert(first_named(seq![line], key, 0) == Some(id));
    if !graph_line {
        assert(line[2] != g[2]);
        assert(!begins_with(line, g)) by {
            if begins_with(line, g) {
                assert(line.subrange(0, g.len() as int)[2] == g[2]);
            }
        }
        assert(named_value(line, g) is None);
        assert(first_named(seq![line], g, 1) is None);
        assert(first_named(seq![line], g, 0) is None);
    }
}

fn occurs(s: &Vec<char>, p: &Vec<char>, i: usize) -> (r: bool)
    ensures
        r == occurs_at(s@, p@, i as int),
{
    if i > s.len() || p.len() > s.len() - i {
        return false;
    }
    let mut j: usize = 0;
    while j < p.len()
        invariant
            i + p.len() <= s.len(),
            j <= p.len(),
            forall|t: int| 0 <= t < j ==> s@[i + t] == p@[t],
        decreases p.len() - j,
    {
        if s[i + j] != p[j] {
            assert(s@.subrange(i as int, i + p.len())[j as int] != p@[j as int]);
            return false;
        }
        j = j + 1;
    }
    assert(s@.subrange(i as int, i + p.len()) =~= p@);
    true
}

/// The first place where `p` occurs in `s`.
pub fn find_text(s: &Vec<char>, p: &Vec<char>) -> (r: Option<usize>)
    ensures
        match r {
            Some(k) => find_from(s@, p@, 0) == Some(k as int) && k + p.len() <= s.len(),
            None => find_from(s@, p@, 0) is None,
        },
{
    if p.len() > s.len() {
        return None;
    }
    let last = s.len() - p.len();
    let mut i: usize = 0;
    loop
        invariant
            last == s.len() - p.len(),
            i <= last,
            find_from(s@, p@, 0) == find_from(s@, p@, i as int),
        decreases last - i,
    {
        if occurs(s, p, i) {
            return Some(i);
        }
        if i == last {
            assert(find_from(s@, p@, i + 1) is None);
            return None;
        }
        i = i + 1;
    }
}

/// The characters of `s` from `from` to `to`.
fn slice_chars(s: &Vec<char>, from: usize, to: usize) -> (r: Vec<char>)
    requires
        from <= to <= s.len(),
    ensures
        r@ == s@.subrange(from as int, to as int),
{
    let mut r: Vec<char> = Vec::new();
    let mut i: usize = from;
    while i < to
        invariant
            from <= i <= to <= s.len(),
            r@ =~= s@.subrange(from as int, i as int),
        decreases to - i,
    {
        r.push(s[i]);
        i = i + 1;
    }
    r
}

/// The pieces of `s` between line feeds.
pub fn split_lines(s: &Vec<char>) -> (r: Vec<Vec<char>>)
    ensures
        r@.map_values(|x: Vec<char>| x@) == lines_of(s@),
{
    let mut done: Vec<Vec<char>> = Vec::new();
    let mut cur: Vec<char> = Vec::new();
    let mut i: usize = 0;
    while i < s.len()
        invariant
            i <= s.len(),
            done@.map_values(|x: Vec<char>| x@).push(cur@) == lines_of(s@.take(i as int)),
        decreases s.len() - i,
    {
        let c = s[i];
        assert(s@.take(i + 1).drop_last() =~= s@.take(i as int));
        assert(s@.take(i + 1).last() == c);
        let ghost before = done@.map_values(|x: Vec<char>| x@);
        let ghost prev = cur@;
        if c == '\n' {
            done.push(cur);
            cur = Vec::new();
            assert(done@.map_values(|x: Vec<char>| x@) =~= before.push(prev));
        } else {
            cur.push(c);
            assert(before.push(prev).update(before.len() as int, prev.push(c)) =~= before.push(cur@));
        }
        i = i + 1;
    }
    assert(s@.take(s.len() as int) =~= s@);
    let ghost before = done@.map_values(|x: Vec<char>| x@);
    let ghost last = cur@;
    done.push(cur);
    assert(done@.map_values(|x: Vec<char>| x@) =~= before.push(last));
    done
}

/// The value a line gives after `key`.
fn value_after(line: &Vec<char>, key: &Vec<char>) -> (r: Option<Vec<char>>)
    ensures
        match r {
            Some(v) => named_value(line@, key@) == Some(v@),
            None => named_value(line@, key@) is None,
        },
{
    if !occurs(line, key, 0) {
        return None;
    }
    assert(begins_with(line@, key@));
    let v = trim(&slice_chars(line, key.len(), line.len()), TrimSet::White);
    if v.len() > 0 {
        Some(v)
    } else {
        None
    }
}

/// The first value that a line gives after `key`.
fn first_value(lines: &Vec<Vec<char>>, key: &Vec<char>) -> (r: Option<Vec<char>>)
    ensures
        match r {
            Some(v) => first_named(lines@.map_values(|x: Vec<char>| x@), key@, 0) == Some(v@),
            None => first_named(lines@.map_values(|x: Vec<char>| x@), key@, 0) is None,
        },
{
    let ghost ls = lines@.map_values(|x: Vec<char>| x@);
    let mut i: usize = 0;
    while i < lines.len()
        invariant
            i <= lines.len(),
            ls == lines@.map_values(|x: Vec<char>| x@),
            first_named(ls, key@, 0) == first_named(ls, key@, i as int),
        decreases lines.len() - i,
    {
        assert(ls[i as int] == lines@[i as int]@);
        match value_after(&lines[i], key) {
            Some(v) => return Some(v),
            None => {},
        }
        i = i + 1;
    }
    None
}

/// A session continues the origin a handoff names only when that origin is
/// another valid session id whose record has a plan.
pub open spec fn continues(id: Seq<char>, origin: Seq<char>, record: Option<SessionView>) -> bool {
    &&& origin != id
    &&& bounded(origin, MAX_ID as nat)
    &&& record matches Some(r) && r.session_id == origin && r.blueprint is Some
}

/// Whether session `id` continues the origin a handoff names, given the
/// origin's stored record if there is one.
pub fn may_continue(id: &str, origin: &str, record: &Option<Session>) -> (r: bool)
    ensures
        r == continues(
            id@,
            origin@,
            match record {
                Some(x) => Some(x@),
                None => None,
            },
        ),
{
    if text_eq(id, origin) || !within_bound(origin, MAX_ID) {
        return false;
    }
    match record {
        Some(x) => text_eq(x.session_id.as_str(), origin) && x.blueprint.is_some(),
        None => false,
    }
}

/// The session a handoff note continues: `None` when it has no scope
/// section, `Some(None)` when the scope names no session.
pub fn handoff_session(note: &str) -> (r: Option<Option<String>>)
    ensures
        r.deep_view() == handoff_session_of(note@),
{
    let s = chars_of(note);
    let head = chars_of("## Scope\n");
    let start = match find_text(&s, &head) {
        Some(k) => k,
        None => return None,
    };
    let rest = slice_chars(&s, start + head.len(), s.len());
    let tail = chars_of("\n## Objective");
    let end = match find_text(&rest, &tail) {
        Some(k) => k,
        None => return None,
    };
    assert(find_from(rest@, tail@, 0) == Some(end as int));
    let scope = slice_chars(&rest, 0, end);
    let lines = split_lines(&scope);
    let found = match first_value(&lines, &chars_of("- graphfather session: ")) {
        Some(v) => Some(v),
        None => first_value(&lines, &chars_of("- current session: ")),
    };
    match found {
        Some(v) => Some(Some(string_of(&v))),
        None => Some(None),
    }
}

} // verus!
