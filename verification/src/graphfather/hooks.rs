//! The GraphFather's hook rules: shell tokens, which commands count as test
//! runs, patch outcomes, shell quoting, and how its hooks answer.
use vstd::prelude::*;
use crate::hook::{layer_json, layer_text, phase_json, phase_text, HookAction, HookActionView};
use crate::ledger::model::{Phase, Session, SessionView};
use crate::ledger::session::owned;
use crate::digest::{sha256_hex, text_digest};
use crate::text::{
    ascii_lower, begins_with, lemma_cut_text, chars_of, contains_text, cut, cut_text, decimal, decimal_text,
    finishes_with, has_substring, lead_count, lemma_split_on_len, separator, trail_count, trimmed_char, is_word, keep_nonempty, nonempty, push_str, split_on,
    split_text, starts_with_text, ends_with_text, text_eq, texts, to_ascii_lower, trim, trim_text,
    TrimSet,
};

verus! {

/// The tokens of a shell command: pieces between white space and `;&|`,
/// empty ones dropped, each with its surrounding quotes removed.
pub open spec fn shell_tokens_of(s: Seq<char>) -> Seq<Seq<char>> {
    nonempty(split_on(s, true)).map_values(|p: Seq<char>| trim_text(p, TrimSet::Quotes))
}

/// An environment assignment such as `A=1` (not an option such as `--x=1`).
pub open spec fn assignment(w: Seq<char>) -> bool {
    w.contains('=') && !begins_with(w, "-"@)
}

/// Where the command proper starts, after assignments and `cd DIR` pairs,
/// scanning from `i`.
pub open spec fn command_start(t: Seq<Seq<char>>, i: int) -> int
    decreases t.len() + 2 - i,
{
    if i < 0 || i >= t.len() {
        i
    } else if assignment(t[i]) {
        command_start(t, i + 1)
    } else if t[i] == "cd"@ {
        command_start(t, i + 2)
    } else {
        i
    }
}

/// The scan for the command proper stays within the tokens (a trailing `cd`
/// without its directory runs past them).
pub open spec fn scannable(t: Seq<Seq<char>>) -> bool {
    command_start(t, 0) <= t.len()
}

/// A word that only prints or searches.
pub open spec fn inert_word(w: Seq<char>) -> bool {
    w == "echo"@ || w == "rg"@ || w == "grep"@ || w == "printf"@
}

/// A test runner invoked directly.
pub open spec fn runner_word(w: Seq<char>) -> bool {
    w == "pytest"@ || w == "vitest"@ || w == "playwright"@
}

/// The command proper `x` runs tests.
pub open spec fn runs_tests(x: Seq<Seq<char>>) -> bool {
    if x.len() == 0 || inert_word(x[0]) {
        false
    } else {
        ||| x.len() >= 2 && x[0] == "cargo"@ && x[1] == "test"@
        ||| x.len() >= 2 && x[0] == "npm"@ && x[1] == "test"@
        ||| x.len() >= 3 && x[0] == "npm"@ && x[1] == "run"@ && begins_with(x[2], "test"@)
        ||| runner_word(x[0])
        ||| x.len() >= 2 && x[0] == "npx"@ && runner_word(x[1])
    }
}

/// Tokens make a recognized test run.
pub open spec fn recognized(t: Seq<Seq<char>>) -> bool {
    runs_tests(t.subrange(command_start(t, 0), t.len() as int))
}

/// A command names this tool as one of its pieces, ignoring double quotes.
pub open spec fn wraps(s: Seq<char>) -> bool {
    exists|i: int|
        0 <= i < split_on(s, true).len() && finishes_with(
            trim_text(#[trigger] split_on(s, true)[i], TrimSet::DoubleQuote),
            "the-graphfather"@,
        )
}

/// The tokens of a shell command.
pub fn shell_tokens(s: &str) -> (r: Vec<Vec<char>>)
    ensures
        texts(r@) == shell_tokens_of(s@),
{
    let p = keep_nonempty(split_text(&chars_of(s), true));
    let mut r: Vec<Vec<char>> = Vec::new();
    let mut i: usize = 0;
    while i < p.len()
        invariant
            i <= p.len(),
            texts(r@) =~= texts(p@).take(i as int).map_values(|q: Seq<char>| trim_text(q, TrimSet::Quotes)),
        decreases p.len() - i,
    {
        let x = trim(&p[i], TrimSet::Quotes);
        let ghost before = texts(r@);
        r.push(x);
        assert(texts(r@) =~= before.push(trim_text(p@[i as int]@, TrimSet::Quotes)));
        i = i + 1;
    }
    assert(texts(p@).take(p.len() as int) =~= texts(p@));
    r
}

fn is_assignment(w: &Vec<char>) -> (r: bool)
    ensures
        r == assignment(w@),
{
    let mut has_eq = false;
    let mut i: usize = 0;
    while i < w.len()
        invariant
            i <= w.len(),
            has_eq == exists|j: int| 0 <= j < i && w@[j] == '=',
        decreases w.len() - i,
    {
        if w[i] == '=' {
            has_eq = true;
        }
        i = i + 1;
    }
    has_eq && !starts_with_text(w, "-")
}

/// The test runs the hook recognizes once assignments and `cd DIR` pairs
/// are skipped: `cargo test`, `npm test`, `npm run test...`, a direct
/// `pytest`, `vitest` or `playwright`, or one of them through `npx`; and a
/// command that starts with `echo`, `rg`, `grep` or `printf` is never one.
pub proof fn law_recognized_test_runs(t: Seq<Seq<char>>, k: int)
    requires
        k == command_start(t, 0),
        0 <= k < t.len(),
    ensures
        k + 1 < t.len() && t[k] == "cargo"@ && t[k + 1] == "test"@ ==> recognized(t),
        k + 1 < t.len() && t[k] == "npm"@ && t[k + 1] == "test"@ ==> recognized(t),
        k + 2 < t.len() && t[k] == "npm"@ && t[k + 1] == "run"@ && begins_with(t[k + 2], "test"@) ==> recognized(t),
        t[k] == "pytest"@ || t[k] == "vitest"@ || t[k] == "playwright"@ ==> recognized(t),
        k + 1 < t.len() && t[k] == "npx"@ && (t[k + 1] == "pytest"@ || t[k + 1] == "vitest"@ || t[k + 1]
            == "playwright"@) ==> recognized(t),
        t[k] == "echo"@ || t[k] == "rg"@ || t[k] == "grep"@ || t[k] == "printf"@ ==> !recognized(t),
        recognized(t) ==> {
            ||| k + 1 < t.len() && (t[k] == "cargo"@ || t[k] == "npm"@) && t[k + 1] == "test"@
            ||| k + 2 < t.len() && t[k] == "npm"@ && t[k + 1] == "run"@ && begins_with(t[k + 2], "test"@)
            ||| t[k] == "pytest"@ || t[k] == "vitest"@ || t[k] == "playwright"@
            ||| k + 1 < t.len() && t[k] == "npx"@ && (t[k + 1] == "pytest"@ || t[k + 1] == "vitest"@ || t[k + 1]
                == "playwright"@)
        },
{
    let x = t.subrange(k, t.len() as int);
    assert(x[0] == t[k]);
    if k + 1 < t.len() {
        assert(x[1] == t[k + 1]);
    }
    if k + 2 < t.len() {
        assert(x[2] == t[k + 2]);
    }
    if t[k] == "cargo"@ || t[k] == "npm"@ || t[k] == "npx"@ || t[k] == "pytest"@ || t[k] == "vitest"@
        || t[k] == "playwright"@ {
        lemma_launchers_not_inert();
    }
}

/// Skipping starts the same way behind a prefix of tokens.
proof fn lemma_command_start_shift(p: Seq<Seq<char>>, t: Seq<Seq<char>>, i: int)
    requires
        0 <= i,
    ensures
        command_start(p + t, i + p.len()) == command_start(t, i) + p.len(),
    decreases t.len() + 2 - i,
{
    let u = p + t;
    if i < t.len() {
        assert(u[i + p.len()] == t[i]);
        if assignment(t[i]) {
            lemma_command_start_shift(p, t, i + 1);
        } else if t[i] == "cd"@ {
            lemma_command_start_shift(p, t, i + 2);
        }
    }
}

/// Skipping never goes back.
proof fn lemma_command_start_from(t: Seq<Seq<char>>, i: int)
    requires
        0 <= i,
    ensures
        command_start(t, i) >= i,
    decreases t.len() + 2 - i,
{
    if i < t.len() {
        if assignment(t[i]) {
            lemma_command_start_from(t, i + 1);
        } else if t[i] == "cd"@ {
            lemma_command_start_from(t, i + 2);
        }
    }
}

/// An environment assignment, or a `cd DIR` pair, in front of a command
/// does not change whether it is a test run.
pub proof fn law_prefix_keeps_recognition(t: Seq<Seq<char>>, a: Seq<char>, d: Seq<char>)
    requires
        scannable(t),
    ensures
        assignment(a) ==> recognized(seq![a] + t) == recognized(t),
        recognized(seq!["cd"@, d] + t) == recognized(t),
{
    let k = command_start(t, 0);
    lemma_command_start_from(t, 0);
    if assignment(a) {
        let u = seq![a] + t;
        assert(u[0] == a);
        lemma_command_start_shift(seq![a], t, 0);
        assert(command_start(u, 0) == command_start(u, 1));
        assert(u.subrange(k + 1, u.len() as int) =~= t.subrange(k, t.len() as int));
    }
    let v = seq!["cd"@, d] + t;
    assert(v[0] == "cd"@);
    assert(!assignment("cd"@)) by {
        reveal_strlit("cd");
        assert("cd"@[0] != '=' && "cd"@[1] != '=');
    }
    lemma_command_start_shift(seq!["cd"@, d], t, 0);
    assert(command_start(v, 0) == command_start(v, 2));
    assert(v.subrange(k + 2, v.len() as int) =~= t.subrange(k, t.len() as int));
}

/// The launcher words are not words that only print or search.
proof fn lemma_launchers_not_inert()
    ensures
        !inert_word("cargo"@),
        !inert_word("npm"@),
        !inert_word("npx"@),
        !inert_word("pytest"@),
        !inert_word("vitest"@),
        !inert_word("playwright"@),
{
    reveal_strlit("cargo");
    reveal_strlit("npm");
    reveal_strlit("npx");
    reveal_strlit("pytest");
    reveal_strlit("vitest");
    reveal_strlit("playwright");
    reveal_strlit("echo");
    reveal_strlit("rg");
    reveal_strlit("grep");
    reveal_strlit("printf");
    assert("cargo"@.len() != "echo"@.len() && "cargo"@.len() != "rg"@.len() && "cargo"@.len() != "grep"@.len()
        && "cargo"@.len() != "printf"@.len());
    assert("npm"@.len() == 3 && "npx"@.len() == 3);
    assert("pytest"@[1] != "printf"@[1]);
    assert("vitest"@[0] != "printf"@[0]);
    assert("playwright"@.len() == 10);
}

/// A command whose command proper is empty (only assignments and `cd`s) is
/// not a test run.
pub proof fn law_no_command_no_test(t: Seq<Seq<char>>)
    requires
        command_start(t, 0) == t.len(),
    ensures
        !recognized(t),
{
    assert(t.subrange(t.len() as int, t.len() as int).len() == 0);
}

/// A reported `success: true` is a successful patch; a report that is
/// neither an object nor a text never is, nor is an object with an `error`
/// and no `success: true`; a text says success exactly when it contains
/// `success` in any letter case.
pub proof fn law_patch_outcome(v: PatchResponse)
    ensures
        v matches PatchResponse::Object { success, .. } && success == Some(true) ==> patch_ok(v),
        v is Other ==> !patch_ok(v),
        v matches PatchResponse::Object { success, has_error, .. } && success != Some(true) && has_error
            ==> !patch_ok(v),
        v matches PatchResponse::Text(t) ==> (patch_ok(v) <==> has_substring(ascii_lower(t@), "success"@)),
{
}

/// Text with no single quote is quoted by wrapping it in single quotes.
pub proof fn law_quote_plain_text(s: Seq<char>)
    requires
        forall|i: int| 0 <= i < s.len() ==> s[i] != '\'',
    ensures
        shell_quoted(s) == seq!['\''] + s + seq!['\''],
    decreases s.len(),
{
    lemma_quote_inner_plain(s);
}

proof fn lemma_quote_inner_plain(s: Seq<char>)
    requires
        forall|i: int| 0 <= i < s.len() ==> s[i] != '\'',
    ensures
        quote_inner(s) == s,
    decreases s.len(),
{
    if s.len() > 0 {
        assert(s[s.len() - 1] != '\'');
        let d = s.drop_last();
        assert forall|i: int| 0 <= i < d.len() implies d[i] != '\'' by {
            assert(d[i] == s[i]);
        }
        lemma_quote_inner_plain(d);
        assert(d.push(s.last()) =~= s);
    }
}

/// A quoted word starts and ends with a single quote, and each single quote
/// of the text is written as `'\''`.
pub proof fn law_quote_escapes_quotes(s: Seq<char>)
    ensures
        shell_quoted(s)[0] == '\'',
        shell_quoted(s).last() == '\'',
        quote_inner(s.push('\'')) == quote_inner(s) + seq!['\'', '\\', '\'', '\''],
{
    assert(s.push('\'').drop_last() =~= s);
}

/// A command one of whose pieces (without double quotes) ends in
/// `the-graphfather` already goes through this tool.
pub proof fn law_wrapped_by_piece(s: Seq<char>, i: int)
    requires
        0 <= i < split_on(s, true).len(),
        finishes_with(trim_text(split_on(s, true)[i], TrimSet::DoubleQuote), "the-graphfather"@),
    ensures
        wraps(s),
{
}

/// Words joined by single spaces.
pub open spec fn joined(a: Seq<Seq<char>>) -> Seq<char>
    decreases a.len(),
{
    if a.len() == 0 {
        Seq::empty()
    } else if a.len() == 1 {
        a[0]
    } else {
        joined(a.drop_last()) + seq![' '] + a.last()
    }
}

/// A word that a shell would pass on as it is: nonempty, with no white
/// space, no `;&|` and no quotes.
pub open spec fn clean_word(w: Seq<char>) -> bool {
    &&& w.len() > 0
    &&& forall|i: int| 0 <= i < w.len() ==> !separator(#[trigger] w[i], true) && w[i] != '\'' && w[i] != '"'
}

/// Appending characters that separate nothing extends the last piece.
proof fn lemma_split_extend(s: Seq<char>, t: Seq<char>)
    requires
        forall|i: int| 0 <= i < t.len() ==> !separator(#[trigger] t[i], true),
    ensures
        split_on(s + t, true) == split_on(s, true).update(
            split_on(s, true).len() - 1,
            split_on(s, true).last() + t,
        ),
    decreases t.len(),
{
    lemma_split_on_len(s, true);
    if t.len() == 0 {
        assert(s + t =~= s);
        assert(split_on(s, true).last() + t =~= split_on(s, true).last());
        assert(split_on(s, true).update(split_on(s, true).len() - 1, split_on(s, true).last()) =~= split_on(s, true));
    } else {
        let u = t.drop_last();
        lemma_split_extend(s, u);
        assert((s + t).drop_last() =~= s + u);
        assert((s + t).last() == t.last());
        assert(!separator(t[t.len() - 1], true));
        let p = split_on(s, true);
        let q = split_on(s + u, true);
        assert(q == p.update(p.len() - 1, p.last() + u));
        assert(q.len() == p.len());
        assert(q.last() == p.last() + u);
        assert(split_on(s + t, true) == q.update(q.len() - 1, q.last().push(t.last())));
        assert((p.last() + u).push(t.last()) =~= p.last() + t);
        assert(split_on(s + t, true) =~= p.update(p.len() - 1, p.last() + t));
    }
}

/// Clean words joined by spaces split back into the same words.
proof fn lemma_split_joined(a: Seq<Seq<char>>)
    requires
        a.len() > 0,
        forall|i: int| 0 <= i < a.len() ==> clean_word(#[trigger] a[i]),
    ensures
        split_on(joined(a), true) == a,
    decreases a.len(),
{
    let w = a.last();
    assert(clean_word(a[a.len() - 1]));
    if a.len() == 1 {
        lemma_split_extend(Seq::empty(), w);
        assert(Seq::<char>::empty() + w =~= w);
        assert(split_on(Seq::<char>::empty(), true) == seq![Seq::<char>::empty()]);
        assert(Seq::<char>::empty() + w =~= a[0]);
        assert(seq![Seq::<char>::empty()].update(0, Seq::<char>::empty() + w) =~= a);
    } else {
        let d = a.drop_last();
        assert forall|i: int| 0 <= i < d.len() implies clean_word(#[trigger] d[i]) by {
            assert(d[i] == a[i]);
        }
        lemma_split_joined(d);
        let sp = joined(d).push(' ');
        assert(split_on(sp, true) == split_on(joined(d), true).push(Seq::empty())) by {
            assert(sp.drop_last() =~= joined(d));
        }
        lemma_split_extend(sp, w);
        assert(joined(a) =~= sp + w);
        assert(Seq::<char>::empty() + w =~= w);
        assert(d.push(Seq::empty()).update(d.len() as int, Seq::<char>::empty() + w) =~= a);
    }
}

/// Nonempty texts are all kept.
proof fn lemma_nonempty_all(p: Seq<Seq<char>>)
    requires
        forall|i: int| 0 <= i < p.len() ==> (#[trigger] p[i]).len() > 0,
    ensures
        nonempty(p) == p,
    decreases p.len(),
{
    if p.len() > 0 {
        assert(p[p.len() - 1].len() > 0);
        lemma_nonempty_all(p.drop_last());
        assert(p.drop_last().push(p.last()) =~= p);
    }
}

/// A command made of clean words joined by spaces has exactly those words
/// as its tokens; so a recognized argument vector and the command that
/// spells it out are recognized alike, and scan alike.
pub proof fn law_argv_reads_as_its_command(a: Seq<Seq<char>>)
    requires
        forall|i: int| 0 <= i < a.len() ==> clean_word(#[trigger] a[i]),
    ensures
        shell_tokens_of(joined(a)) == a,
        recognized(a) == recognized(shell_tokens_of(joined(a))),
        scannable(a) == scannable(shell_tokens_of(joined(a))),
{
    if a.len() == 0 {
        assert(split_on(Seq::<char>::empty(), true) == seq![Seq::<char>::empty()]);
        let one = seq![Seq::<char>::empty()];
        assert(one.drop_last() =~= Seq::<Seq<char>>::empty());
        assert(one.last().len() == 0);
        assert(nonempty(one.drop_last()) == Seq::<Seq<char>>::empty());
        assert(nonempty(one) == nonempty(one.drop_last()));
        assert(shell_tokens_of(joined(a)) =~= a);
    } else {
        lemma_split_joined(a);
        assert forall|i: int| 0 <= i < a.len() implies (#[trigger] a[i]).len() > 0 by {
            assert(clean_word(a[i]));
        }
        lemma_nonempty_all(a);
        assert forall|i: int| 0 <= i < a.len() implies trim_text(#[trigger] a[i], TrimSet::Quotes) == a[i] by {
            assert(clean_word(a[i]));
            let w = a[i];
            assert(!trimmed_char(TrimSet::Quotes, w[0]));
            assert(!trimmed_char(TrimSet::Quotes, w.last()));
            assert(lead_count(w, TrimSet::Quotes) == 0);
            assert(trail_count(w, TrimSet::Quotes) == 0);
            assert(w.subrange(0, w.len() as int) =~= w);
        }
        assert(shell_tokens_of(joined(a)) =~= a);
    }
}

/// Where the command proper starts, or `None` where the scan runs past the
/// tokens.
pub fn command_start_of(t: &Vec<Vec<char>>) -> (r: Option<usize>)
    ensures
        match r {
            Some(k) => k as int == command_start(texts(t@), 0) && k <= t.len(),
            None => command_start(texts(t@), 0) > t.len(),
        },
{
    let ghost tv = texts(t@);
    let mut i: usize = 0;
    while i < t.len()
        invariant
            tv == texts(t@),
            i <= t.len(),
            command_start(tv, 0) == command_start(tv, i as int),
        decreases t.len() - i,
    {
        assert(tv[i as int] == t@[i as int]@);
        if is_assignment(&t[i]) {
            i = i + 1;
        } else if is_word(&t[i], "cd") {
            if i + 1 == t.len() {
                assert(command_start(tv, i + 2) == i + 2);
                return None;
            }
            i = i + 2;
        } else {
            return Some(i);
        }
    }
    Some(i)
}

fn is_inert(w: &Vec<char>) -> (r: bool)
    ensures
        r == inert_word(w@),
{
    is_word(w, "echo") || is_word(w, "rg") || is_word(w, "grep") || is_word(w, "printf")
}

fn is_runner(w: &Vec<char>) -> (r: bool)
    ensures
        r == runner_word(w@),
{
    is_word(w, "pytest") || is_word(w, "vitest") || is_word(w, "playwright")
}

/// Whether tokens make a recognized test run.
pub fn recognized_tokens(t: &Vec<Vec<char>>) -> (r: bool)
    requires
        scannable(texts(t@)),
    ensures
        r == recognized(texts(t@)),
{
    let ghost tv = texts(t@);
    let i = match command_start_of(t) {
        Some(k) => k,
        None => return false,
    };
    let ghost x = tv.subrange(i as int, tv.len() as int);
    let n = t.len() - i;
    assert(x.len() == n);
    if n == 0 {
        return false;
    }
    assert(x[0] == t@[i as int]@);
    if is_inert(&t[i]) {
        return false;
    }
    if n >= 2 {
        assert(x[1] == t@[i + 1]@);
    }
    if n >= 3 {
        assert(x[2] == t@[i + 2]@);
    }
    if n >= 2 && is_word(&t[i], "cargo") && is_word(&t[i + 1], "test") {
        return true;
    }
    if n >= 2 && is_word(&t[i], "npm") && is_word(&t[i + 1], "test") {
        return true;
    }
    if n >= 3 && is_word(&t[i], "npm") && is_word(&t[i + 1], "run") && starts_with_text(&t[i + 2], "test") {
        return true;
    }
    if is_runner(&t[i]) {
        return true;
    }
    if n >= 2 && is_word(&t[i], "npx") && is_runner(&t[i + 1]) {
        return true;
    }
    false
}

/// Whether a shell command's tokens stay within reach of the scan.
pub fn test_scan_in_bounds(s: &str) -> (r: bool)
    ensures
        r == scannable(shell_tokens_of(s@)),
{
    let t = shell_tokens(s);
    command_start_of(&t).is_some()
}

/// Whether a shell command is a recognized test run.
pub fn is_recognized_test(s: &str) -> (r: bool)
    requires
        scannable(shell_tokens_of(s@)),
    ensures
        r == recognized(shell_tokens_of(s@)),
{
    recognized_tokens(&shell_tokens(s))
}

/// The characters of each argument.
fn argv_chars(a: &[String]) -> (r: Vec<Vec<char>>)
    ensures
        texts(r@) == a.deep_view(),
{
    let mut r: Vec<Vec<char>> = Vec::new();
    let mut i: usize = 0;
    while i < a.len()
        invariant
            i <= a.len(),
            texts(r@) =~= a.deep_view().take(i as int),
        decreases a.len() - i,
    {
        let ghost before = texts(r@);
        r.push(chars_of(a[i].as_str()));
        assert(texts(r@) =~= before.push(a@[i as int]@));
        i = i + 1;
    }
    r
}

/// Whether an argument vector stays within reach of the scan.
pub fn argv_scan_in_bounds(a: &[String]) -> (r: bool)
    ensures
        r == scannable(a.deep_view()),
{
    let t = argv_chars(a);
    command_start_of(&t).is_some()
}

/// Whether an argument vector is a recognized test run.
pub fn recognized_argv(a: &[String]) -> (r: bool)
    requires
        scannable(a.deep_view()),
    ensures
        r == recognized(a.deep_view()),
{
    recognized_tokens(&argv_chars(a))
}

/// Whether a shell command already goes through this tool.
pub fn contains_wrapper(s: &str) -> (r: bool)
    ensures
        r == wraps(s@),
{
    let p = split_text(&chars_of(s), true);
    let mut i: usize = 0;
    while i < p.len()
        invariant
            i <= p.len(),
            texts(p@) == split_on(s@, true),
            forall|j: int|
                0 <= j < i ==> !finishes_with(
                    trim_text(#[trigger] texts(p@)[j], TrimSet::DoubleQuote),
                    "the-graphfather"@,
                ),
        decreases p.len() - i,
    {
        assert(texts(p@)[i as int] == p@[i as int]@);
        if ends_with_text(&trim(&p[i], TrimSet::DoubleQuote), "the-graphfather") {
            return true;
        }
        i = i + 1;
    }
    false
}

/// What a tool reported after a patch, as far as the hook reads it.
pub enum PatchResponse {
    /// An object: its boolean `success` if any, whether it has an `error`
    /// key, and its text `output` if any.
    Object { success: Option<bool>, has_error: bool, output: Option<String> },
    /// A bare text.
    Text(String),
    /// Anything else, or nothing.
    Other,
}

/// The report says the patch succeeded.
pub open spec fn patch_ok(v: PatchResponse) -> bool {
    match v {
        PatchResponse::Object { success, has_error, output } => success == Some(true) || (!has_error
            && match output {
            Some(o) => has_substring(ascii_lower(o@), "success"@),
            None => false,
        }),
        PatchResponse::Text(t) => has_substring(ascii_lower(t@), "success"@),
        PatchResponse::Other => false,
    }
}

/// Whether the report says the patch succeeded.
pub fn patch_succeeded(v: &PatchResponse) -> (r: bool)
    ensures
        r == patch_ok(*v),
{
    match v {
        PatchResponse::Object { success, has_error, output } => {
            if *success == Some(true) {
                return true;
            }
            if *has_error {
                return false;
            }
            match output {
                Some(o) => contains_text(&to_ascii_lower(o.as_str()), &chars_of("success")),
                None => false,
            }
        },
        PatchResponse::Text(t) => contains_text(&to_ascii_lower(t.as_str()), &chars_of("success")),
        PatchResponse::Other => false,
    }
}

/// `s` with each `'` written `'\''` (closing, escaped, reopening quotes).
pub open spec fn quote_inner(s: Seq<char>) -> Seq<char>
    decreases s.len(),
{
    if s.len() == 0 {
        Seq::empty()
    } else if s.last() == '\'' {
        quote_inner(s.drop_last()) + seq!['\'', '\\', '\'', '\'']
    } else {
        quote_inner(s.drop_last()).push(s.last())
    }
}

/// `s` as one single-quoted shell word.
pub open spec fn shell_quoted(s: Seq<char>) -> Seq<char> {
    seq!['\''] + quote_inner(s) + seq!['\'']
}

/// `s` as one single-quoted shell word.
pub fn shell_quote(s: &str) -> (r: String)
    ensures
        r@ == shell_quoted(s@),
{
    let cs = chars_of(s);
    let mut r = String::new();
    r.push('\'');
    let mut i: usize = 0;
    while i < cs.len()
        invariant
            i <= cs.len(),
            cs@ == s@,
            r@ == seq!['\''] + quote_inner(s@.take(i as int)),
        decreases cs.len() - i,
    {
        assert(s@.take(i + 1).drop_last() =~= s@.take(i as int));
        assert(s@.take(i + 1).last() == cs@[i as int]);
        if cs[i] == '\'' {
            r.push('\'');
            r.push('\\');
            r.push('\'');
            r.push('\'');
        } else {
            r.push(cs[i]);
        }
        i = i + 1;
        assert(r@ =~= seq!['\''] + quote_inner(s@.take(i as int)));
    }
    r.push('\'');
    assert(s@.take(cs.len() as int) =~= s@);
    assert(r@ =~= shell_quoted(s@));
    r
}

} // verus!

verus! {

/// Anything else a tool does before it runs is allowed; a successful patch
/// to a planned project is recorded as a change; every other event gets the
/// context, which opens with the command line for this session at its
/// current revision.
pub proof fn law_other_calls_answered(
    event: Seq<char>,
    tool: Seq<char>,
    command: Seq<char>,
    patched: bool,
    exe: Seq<char>,
    skill: Seq<char>,
    plan: Seq<char>,
    s: SessionView,
)
    ensures
        event == "PreToolUse"@ && !(recognized(shell_tokens_of(command)) && !wraps(command)) && !(tool
            == "apply_patch"@ && (s.phase == Phase::Blueprint || s.phase == Phase::Complete)) ==> hook_answer(
            event,
            tool,
            command,
            patched,
            exe,
            skill,
            plan,
            s,
        ) == HookActionView::Allow,
        event == "PostToolUse"@ && tool == "apply_patch"@ && patched && s.blueprint is Some ==> hook_answer(
            event,
            tool,
            command,
            patched,
            exe,
            skill,
            plan,
            s,
        ) == HookActionView::RecordChange,
        event != "PreToolUse"@ && event != "PostToolUse"@ ==> hook_answer(event, tool, command, patched, exe, skill, plan, s)
            == HookActionView::Context(cut_text(context_text(event, exe, skill, plan, s), 1500)),
        begins_with(
            context_text(event, exe, skill, plan, s),
            "command="@ + shell_quoted(exe) + " --session "@ + shell_quoted(s.session_id) + " --revision "@
                + decimal_text(s.revision as nat) + " | session="@ + shell_quoted(s.session_id),
        ),
{
    let t = context_text(event, exe, skill, plan, s);
    let p = "command="@ + shell_quoted(exe) + " --session "@ + shell_quoted(s.session_id) + " --revision "@
        + decimal_text(s.revision as nat) + " | session="@ + shell_quoted(s.session_id);
    assert(t.subrange(0, p.len() as int) =~= p);
    reveal_strlit("PostToolUse");
    reveal_strlit("PreToolUse");
    assert("PostToolUse"@[1] != "PreToolUse"@[1]);
}

/// The name of a session's published plan file: the hexadecimal SHA-256 of
/// its id, with `.md`.
pub open spec fn plan_file(id: Seq<char>) -> Seq<char> {
    text_digest(id) + ".md"@
}

/// The name of a session's published plan file.
pub fn plan_file_name(id: &str) -> (r: String)
    ensures
        r@ == plan_file(id@),
{
    let mut r = sha256_hex(id);
    push_str(&mut r, ".md");
    r
}

/// What the context asks of the agent for an event.
pub open spec fn instruction(event: Seq<char>) -> Seq<char> {
    if event == "UserPromptSubmit"@ {
        " reconcile the latest user message with the pinned plan before continuing; use revise only for an actual steer, and do not reset for questions or no-op turns."@
    } else {
        " read the pinned plan before continuing; use the guarded revision for plan changes."@
    }
}

/// The context the hooks give the agent: how to call this tool for the
/// session, the plan and skill files, what to do now, and where the project
/// stands (`exe`, `skill` and `plan` are paths).
pub open spec fn context_text(
    event: Seq<char>,
    exe: Seq<char>,
    skill: Seq<char>,
    plan: Seq<char>,
    s: SessionView,
) -> Seq<char> {
    let id = shell_quoted(s.session_id);
    let revision = decimal_text(s.revision as nat);
    let objective = match s.blueprint {
        Some(b) => b.objective,
        None => "unplanned"@,
    };
    "command="@ + shell_quoted(exe) + " --session "@ + id + " --revision "@ + revision
        + " | session="@ + id + " | revision="@ + revision + " | plan="@ + shell_quoted(plan)
        + " | skill="@ + shell_quoted(skill) + " |"@ + instruction(event) + " phase="@
        + phase_json(s.phase) + " layer="@ + layer_json(s.cursor.layer) + " remaining="@
        + decimal_text(s.cursor.incomplete.len()) + " | next="@ + cut_text(s.cursor.next, 240)
        + " | objective="@ + cut_text(objective, 240)
}

/// The reason a bare test command is refused.
pub open spec fn unwrapped_test_reason() -> Seq<char> {
    "recognized test command: wrap it with the-graphfather check KIND LABEL -- COMMAND"@
}

/// The reason a patch before planning is refused.
pub open spec fn unplanned_reason() -> Seq<char> {
    "plan a blueprint before editing"@
}

/// The reason a patch to a complete project is refused.
pub open spec fn complete_reason() -> Seq<char> {
    "project is complete; use changed or reset first"@
}

/// How a hook answers an event (`tool` is empty when none is named,
/// `command` is the tool's command, `patched` says the tool reported success)
/// for a session in state `s`.
pub open spec fn hook_answer(
    event: Seq<char>,
    tool: Seq<char>,
    command: Seq<char>,
    patched: bool,
    exe: Seq<char>,
    skill: Seq<char>,
    plan: Seq<char>,
    s: SessionView,
) -> HookActionView {
    if event == "PreToolUse"@ {
        if recognized(shell_tokens_of(command)) && !wraps(command) {
            HookActionView::Deny(unwrapped_test_reason())
        } else if tool == "apply_patch"@ && s.phase == Phase::Blueprint {
            HookActionView::Deny(unplanned_reason())
        } else if tool == "apply_patch"@ && s.phase == Phase::Complete {
            HookActionView::Deny(complete_reason())
        } else {
            HookActionView::Allow
        }
    } else if event == "PostToolUse"@ && tool == "apply_patch"@ && patched && s.blueprint is Some {
        HookActionView::RecordChange
    } else {
        HookActionView::Context(cut_text(context_text(event, exe, skill, plan, s), 1500))
    }
}

/// What a hook injects as context is at most 1500 characters long and is
/// the start of the full context text, which opens with the command line,
/// session, revision and plan before any user-authored field.
pub proof fn law_context_bounded(
    event: Seq<char>,
    tool: Seq<char>,
    command: Seq<char>,
    patched: bool,
    exe: Seq<char>,
    skill: Seq<char>,
    plan: Seq<char>,
    s: SessionView,
)
    ensures
        hook_answer(event, tool, command, patched, exe, skill, plan, s) matches HookActionView::Context(c)
            ==> c.len() <= 1500 && begins_with(context_text(event, exe, skill, plan, s), c),
{
    lemma_cut_text(context_text(event, exe, skill, plan, s), 1500);
}

/// Before a tool runs, a patch is always refused while no blueprint is
/// planned and once the project is complete, and so is a recognized test
/// command that does not go through this tool.
pub proof fn law_guarded_tool_calls(
    tool: Seq<char>,
    command: Seq<char>,
    patched: bool,
    exe: Seq<char>,
    skill: Seq<char>,
    plan: Seq<char>,
    s: SessionView,
)
    ensures
        tool == "apply_patch"@ && (s.phase == Phase::Blueprint || s.phase == Phase::Complete)
            ==> hook_answer("PreToolUse"@, tool, command, patched, exe, skill, plan, s) is Deny,
        recognized(shell_tokens_of(command)) && !wraps(command) ==> hook_answer(
            "PreToolUse"@,
            tool,
            command,
            patched,
            exe,
            skill,
            plan,
            s,
        ) == HookActionView::Deny(unwrapped_test_reason()),
{
}

fn instruction_for(event: &str) -> (r: String)
    ensures
        r@ == instruction(event@),
{
    if text_eq(event, "UserPromptSubmit") {
        owned(
            " reconcile the latest user message with the pinned plan before continuing; use revise only for an actual steer, and do not reset for questions or no-op turns.",
        )
    } else {
        owned(" read the pinned plan before continuing; use the guarded revision for plan changes.")
    }
}

fn objective_of(s: &Session) -> (r: String)
    ensures
        r@ == match s@.blueprint {
            Some(b) => b.objective,
            None => "unplanned"@,
        },
{
    match &s.blueprint {
        Some(b) => b.objective.clone(),
        None => owned("unplanned"),
    }
}

/// The context text for a session.
pub fn context(event: &str, exe: &str, skill: &str, plan: &str, s: &Session) -> (r: String)
    ensures
        r@ == context_text(event@, exe@, skill@, plan@, s@),
{
    let id = shell_quote(s.session_id.as_str());
    let revision = decimal(s.revision);
    let mut t = owned("command=");
    push_str(&mut t, shell_quote(exe).as_str());
    push_str(&mut t, " --session ");
    push_str(&mut t, id.as_str());
    push_str(&mut t, " --revision ");
    push_str(&mut t, revision.as_str());
    push_str(&mut t, " | session=");
    push_str(&mut t, id.as_str());
    push_str(&mut t, " | revision=");
    push_str(&mut t, revision.as_str());
    push_str(&mut t, " | plan=");
    push_str(&mut t, shell_quote(plan).as_str());
    push_str(&mut t, " | skill=");
    push_str(&mut t, shell_quote(skill).as_str());
    push_str(&mut t, " |");
    push_str(&mut t, instruction_for(event).as_str());
    push_str(&mut t, " phase=");
    push_str(&mut t, phase_text(s.phase).as_str());
    push_str(&mut t, " layer=");
    push_str(&mut t, layer_text(&s.cursor.layer).as_str());
    push_str(&mut t, " remaining=");
    push_str(&mut t, decimal(s.cursor.incomplete_components.len() as u64).as_str());
    push_str(&mut t, " | next=");
    push_str(&mut t, cut(s.cursor.next.as_str(), 240).as_str());
    push_str(&mut t, " | objective=");
    push_str(&mut t, cut(objective_of(s).as_str(), 240).as_str());
    t
}

/// How a hook answers an event.
pub fn hook_action(
    event: &str,
    tool: &str,
    command: &str,
    patched: bool,
    exe: &str,
    skill: &str,
    plan: &str,
    s: &Session,
) -> (r: HookAction)
    requires
        event@ == "PreToolUse"@ ==> scannable(shell_tokens_of(command@)),
    ensures
        r@ == hook_answer(event@, tool@, command@, patched, exe@, skill@, plan@, s@),
{
    if text_eq(event, "PreToolUse") {
        if is_recognized_test(command) && !contains_wrapper(command) {
            return HookAction::Deny(
                owned("recognized test command: wrap it with the-graphfather check KIND LABEL -- COMMAND"),
            );
        }
        if text_eq(tool, "apply_patch") && s.phase == Phase::Blueprint {
            return HookAction::Deny(owned("plan a blueprint before editing"));
        }
        if text_eq(tool, "apply_patch") && s.phase == Phase::Complete {
            return HookAction::Deny(owned("project is complete; use changed or reset first"));
        }
        return HookAction::Allow;
    }
    if text_eq(event, "PostToolUse") && text_eq(tool, "apply_patch") && patched
        && s.blueprint.is_some() {
        return HookAction::RecordChange;
    }
    let c = context(event, exe, skill, plan, s);
    HookAction::Context(cut(c.as_str(), 1500))
}

} // verus!
