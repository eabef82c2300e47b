//! The GitFather's own rules: which shell commands count as test runs, how
//! its check arguments are read, and how its hooks answer.
use vstd::prelude::*;
use crate::hook::{layer_json, layer_text, phase_json, phase_text, HookAction, HookActionView};
use crate::ledger::checks::{argv_digest, argv_hash, check_args, check_args_of, CheckArgs, CheckArgsView};
use crate::ledger::model::{CheckKind, LedgerError, Phase, Session, SessionView};
use crate::ledger::session::owned;
use crate::text::{
    begins_with, lemma_cut_text,
    push_str, chars_of, text_eq, contains_text, cut, cut_text, decimal, decimal_text, has_substring, is_word,
    split_on, split_text, texts, words, words_of, ends_with_text, finishes_with, trim, trim_text, TrimSet,
};

verus! {

/// A word that launches a test runner or package tool.
pub open spec fn launcher_word(w: Seq<char>) -> bool {
    w == "cargo"@ || w == "npm"@ || w == "npx"@ || w == "pytest"@ || w == "vitest"@ || w
        == "playwright"@
}

/// A word that names a test run.
pub open spec fn test_word(w: Seq<char>) -> bool {
    w == "test"@ || w == "pytest"@ || w == "vitest"@ || w == "playwright"@
}

/// A command is a recognized test run: one of its words launches a test
/// tool, and one names a test run or it contains `cargo test` or `npm test`.
pub open spec fn recognized_test(s: Seq<char>) -> bool {
    let t = words(s);
    &&& exists|i: int| 0 <= i < t.len() && launcher_word(#[trigger] t[i])
    &&& (exists|i: int| 0 <= i < t.len() && test_word(#[trigger] t[i])) || has_substring(
        s,
        "cargo test"@,
    ) || has_substring(s, "npm test"@)
}

/// A command calls this tool: one of its pieces between white space and
/// `;&|`, without surrounding double quotes, ends in `the-gitfather` (the tool
/// itself or a path to it).
pub open spec fn wraps(s: Seq<char>) -> bool {
    exists|i: int|
        0 <= i < split_on(s, true).len() && finishes_with(
            trim_text(#[trigger] split_on(s, true)[i], TrimSet::DoubleQuote),
            "the-gitfather"@,
        )
}

fn is_launcher(w: &Vec<char>) -> (r: bool)
    ensures
        r == launcher_word(w@),
{
    is_word(w, "cargo") || is_word(w, "npm") || is_word(w, "npx") || is_word(w, "pytest")
        || is_word(w, "vitest") || is_word(w, "playwright")
}

fn is_test(w: &Vec<char>) -> (r: bool)
    ensures
        r == test_word(w@),
{
    is_word(w, "test") || is_word(w, "pytest") || is_word(w, "vitest") || is_word(w, "playwright")
}

/// Whether a shell command is a recognized test run.
pub fn is_recognized_test(s: &str) -> (r: bool)
    ensures
        r == recognized_test(s@),
{
    let t = words_of(s);
    let mut launcher = false;
    let mut test = false;
    let mut i: usize = 0;
    while i < t.len()
        invariant
            i <= t.len(),
            texts(t@) == words(s@),
            launcher == exists|j: int| 0 <= j < i && launcher_word(#[trigger] texts(t@)[j]),
            test == exists|j: int| 0 <= j < i && test_word(#[trigger] texts(t@)[j]),
        decreases t.len() - i,
    {
        assert(texts(t@)[i as int] == t@[i as int]@);
        if is_launcher(&t[i]) {
            launcher = true;
        }
        if is_test(&t[i]) {
            test = true;
        }
        i = i + 1;
    }
    if !launcher {
        return false;
    }
    let cs = chars_of(s);
    test || contains_text(&cs, &chars_of("cargo test")) || contains_text(&cs, &chars_of("npm test"))
}

/// Whether a shell command already goes through this tool.
pub fn contains_wrapper(s: &str) -> (r: bool)
    ensures
        r == wraps(s@),
{
    let p = split_text(&chars_of(s), true);
    let mut i: usize = 0;
    while i < p.len()
        invariant
            i <= p.len(),
            texts(p@) == split_on(s@, true),
            forall|j: int|
                0 <= j < i ==> !finishes_with(
                    trim_text(#[trigger] texts(p@)[j], TrimSet::DoubleQuote),
                    "the-gitfather"@,
                ),
        decreases p.len() - i,
    {
        assert(texts(p@)[i as int] == p@[i as int]@);
        if ends_with_text(&trim(&p[i], TrimSet::DoubleQuote), "the-gitfather") {
            return true;
        }
        i = i + 1;
    }
    false
}

/// An argument vector names a test run.
pub open spec fn test_argv_spec(a: Seq<Seq<char>>) -> bool {
    exists|i: int| 0 <= i < a.len() && test_word(#[trigger] a[i])
}

/// Whether an argument vector names a test run.
pub fn test_argv(a: &[String]) -> (r: bool)
    ensures
        r == test_argv_spec(a.deep_view()),
{
    let mut i: usize = 0;
    while i < a.len()
        invariant
            i <= a.len(),
            forall|j: int| 0 <= j < i ==> !test_word(#[trigger] a.deep_view()[j]),
        decreases a.len() - i,
    {
        assert(a.deep_view()[i as int] == a@[i as int]@);
        if is_test(&chars_of(a[i].as_str())) {
            return true;
        }
        i = i + 1;
    }
    false
}

/// The check request that arguments make here (labels are not bounded; a
/// smoke check may not run a test command).
pub open spec fn check_request(a: Seq<Seq<char>>) -> Result<CheckArgsView, LedgerError> {
    match check_args_of(a, false) {
        Err(e) => Err(e),
        Ok(v) => if v.kind == CheckKind::Smoke && test_argv_spec(v.argv) {
            Err(LedgerError::SmokeTestCommand)
        } else {
            Ok(v)
        },
    }
}

/// A smoke check never runs a command that names a test run; every
/// accepted request is the one its arguments make.
pub proof fn law_smoke_never_runs_tests(a: Seq<Seq<char>>)
    ensures
        check_request(a) matches Ok(v) ==> check_args_of(a, false) == Ok::<CheckArgsView, LedgerError>(v)
            && (v.kind == CheckKind::Smoke ==> !test_argv_spec(v.argv)),
        check_args_of(a, false) matches Ok(v) && v.kind == CheckKind::Smoke && test_argv_spec(v.argv) ==> check_request(a)
            == Err::<CheckArgsView, LedgerError>(LedgerError::SmokeTestCommand),
{
}

/// Reads `KIND LABEL [--reason TEXT]... -- COMMAND...` and the command's
/// digest.
pub fn parse_check(a: &[String]) -> (r: Result<(CheckArgs, String), LedgerError>)
    ensures
        match check_request(a.deep_view()) {
            Ok(v) => r matches Ok((x, h)) && x@ == v && h@ == argv_digest(v.argv),
            Err(e) => r == Err::<(CheckArgs, String), LedgerError>(e),
        },
{
    let c = match check_args(a, false) {
        Err(e) => return Err(e),
        Ok(c) => c,
    };
    if c.kind == CheckKind::Smoke && test_argv(c.argv.as_slice()) {
        return Err(LedgerError::SmokeTestCommand);
    }
    let h = argv_hash(&c.argv);
    Ok((c, h))
}

/// The context the hooks give the agent: objective, phase, layer, how many
/// components remain, the next action and the command to use.
pub open spec fn context_text(s: SessionView) -> Seq<char> {
    "the-gitfather: "@ + match s.blueprint {
        Some(b) => b.objective,
        None => "unplanned"@,
    } + " | phase="@ + phase_json(s.phase) + " layer="@ + layer_json(s.cursor.layer)
        + " remaining="@ + decimal_text(s.cursor.incomplete.len()) + " | next="@ + s.cursor.next
        + " | command=\"${PLUGIN_DATA}/the-gitfather\" --session "@ + s.session_id
}

/// The reason a bare test command is refused.
pub open spec fn unwrapped_test_reason() -> Seq<char> {
    "recognized test command: wrap it with the-gitfather check KIND LABEL -- COMMAND"@
}

/// The reason a patch to a complete project is refused.
pub open spec fn complete_reason() -> Seq<char> {
    "project is complete; use changed or reset first"@
}

/// How a hook answers an event (`tool` is empty when none is named; `patched`
/// says the tool reported success) for a session in state `s`.
pub open spec fn hook_answer(
    event: Seq<char>,
    tool: Seq<char>,
    command: Seq<char>,
    patched: bool,
    s: SessionView,
) -> HookActionView {
    if event == "PreToolUse"@ {
        if recognized_test(command) && !wraps(command) {
            HookActionView::Deny(unwrapped_test_reason())
        } else if tool == "apply_patch"@ && s.phase == Phase::Complete {
            HookActionView::Deny(complete_reason())
        } else {
            HookActionView::Allow
        }
    } else if event == "PostToolUse"@ && tool == "apply_patch"@ && patched && s.blueprint is Some {
        HookActionView::RecordChange
    } else {
        HookActionView::Context(cut_text(context_text(s), 1500))
    }
}

/// What a hook injects as context is at most 1500 characters long and is
/// the start of the full context text.
pub proof fn law_context_bounded(
    event: Seq<char>,
    tool: Seq<char>,
    command: Seq<char>,
    patched: bool,
    s: SessionView,
)
    ensures
        hook_answer(event, tool, command, patched, s) matches HookActionView::Context(c) ==> c.len()
            <= 1500 && begins_with(context_text(s), c),
{
    lemma_cut_text(context_text(s), 1500);
}

/// Before a tool runs, a patch to a complete project is always refused, and
/// so is a recognized test command that does not go through this tool.
pub proof fn law_guarded_tool_calls(tool: Seq<char>, command: Seq<char>, patched: bool, s: SessionView)
    ensures
        tool == "apply_patch"@ && s.phase == Phase::Complete ==> hook_answer(
            "PreToolUse"@,
            tool,
            command,
            patched,
            s,
        ) is Deny,
        recognized_test(command) && !wraps(command) ==> hook_answer(
            "PreToolUse"@,
            tool,
            command,
            patched,
            s,
        ) == HookActionView::Deny(unwrapped_test_reason()),
{
}

/// A command none of whose words launches a test tool is never a test run;
/// one with a launcher word and a word naming a test run always is, and so
/// is one with a launcher word that contains `cargo test` or `npm test`.
pub proof fn law_recognized_test_words(s: Seq<char>, i: int, j: int)
    ensures
        (forall|k: int| 0 <= k < words(s).len() ==> !launcher_word(#[trigger] words(s)[k])) ==> !recognized_test(s),
        0 <= i < words(s).len() && launcher_word(words(s)[i]) && 0 <= j < words(s).len() && test_word(words(s)[j])
            ==> recognized_test(s),
        0 <= i < words(s).len() && launcher_word(words(s)[i]) && (has_substring(s, "cargo test"@) || has_substring(
            s,
            "npm test"@,
        )) ==> recognized_test(s),
{
}

/// By its words: `cargo`, `npm` or `npx` with a word `test`, or any of the
/// runners `pytest`, `vitest` and `playwright`, is a test run; a command
/// with none of the words `cargo`, `npm`, `npx`, `pytest`, `vitest` and
/// `playwright` is not; nor is one with no word `test` or runner word that
/// contains neither `cargo test` nor `npm test`.
pub proof fn law_test_commands_by_words(s: Seq<char>, i: int, j: int)
    ensures
        0 <= i < words(s).len() && 0 <= j < words(s).len() && (words(s)[i] == "cargo"@ || words(s)[i] == "npm"@
            || words(s)[i] == "npx"@) && words(s)[j] == "test"@ ==> recognized_test(s),
        0 <= i < words(s).len() && (words(s)[i] == "pytest"@ || words(s)[i] == "vitest"@ || words(s)[i]
            == "playwright"@) ==> recognized_test(s),
        (forall|k: int|
            0 <= k < words(s).len() ==> #[trigger] words(s)[k] != "cargo"@ && words(s)[k] != "npm"@ && words(s)[k]
                != "npx"@ && words(s)[k] != "pytest"@ && words(s)[k] != "vitest"@ && words(s)[k]
                != "playwright"@) ==> !recognized_test(s),
        (forall|k: int|
            0 <= k < words(s).len() ==> #[trigger] words(s)[k] != "test"@ && words(s)[k] != "pytest"@ && words(s)[k]
                != "vitest"@ && words(s)[k] != "playwright"@) && !has_substring(s, "cargo test"@)
            && !has_substring(s, "npm test"@) ==> !recognized_test(s),
{
    if 0 <= i < words(s).len() && (words(s)[i] == "pytest"@ || words(s)[i] == "vitest"@ || words(s)[i]
        == "playwright"@) {
        assert(launcher_word(words(s)[i]) && test_word(words(s)[i]));
    }
    if 0 <= i < words(s).len() && 0 <= j < words(s).len() && (words(s)[i] == "cargo"@ || words(s)[i] == "npm"@
        || words(s)[i] == "npx"@) && words(s)[j] == "test"@ {
        assert(launcher_word(words(s)[i]) && test_word(words(s)[j]));
    }
}

/// A command one of whose pieces (without double quotes) ends in
/// `the-gitfather` already goes through this tool.
pub proof fn law_wrapped_by_piece(s: Seq<char>, i: int)
    requires
        0 <= i < split_on(s, true).len(),
        finishes_with(trim_text(split_on(s, true)[i], TrimSet::DoubleQuote), "the-gitfather"@),
    ensures
        wraps(s),
{
}

/// Anything else a tool does before it runs is allowed; a successful patch
/// to a planned project is recorded as a change; every other event gets the
/// context, which names the objective (or `unplanned`) first and ends with
/// this session's id.
pub proof fn law_other_calls_answered(event: Seq<char>, tool: Seq<char>, command: Seq<char>, patched: bool, s: SessionView)
    ensures
        event == "PreToolUse"@ && !(recognized_test(command) && !wraps(command)) && !(tool == "apply_patch"@
            && s.phase == Phase::Complete) ==> hook_answer(event, tool, command, patched, s) == HookActionView::Allow,
        event == "PostToolUse"@ && tool == "apply_patch"@ && patched && s.blueprint is Some ==> hook_answer(
            event,
            tool,
            command,
            patched,
            s,
        ) == HookActionView::RecordChange,
        event != "PreToolUse"@ && event != "PostToolUse"@ ==> hook_answer(event, tool, command, patched, s)
            == HookActionView::Context(cut_text(context_text(s), 1500)),
        begins_with(context_text(s), "the-gitfather: "@ + match s.blueprint {
            Some(b) => b.objective,
            None => "unplanned"@,
        }),
        finishes_with(context_text(s), s.session_id),
{
    let t = context_text(s);
    let p = "the-gitfather: "@ + match s.blueprint {
        Some(b) => b.objective,
        None => "unplanned"@,
    };
    assert(t.subrange(0, p.len() as int) =~= p);
    let q = s.session_id;
    assert(t.subrange(t.len() - q.len(), t.len() as int) =~= q);
    reveal_strlit("PostToolUse");
    reveal_strlit("PreToolUse");
    assert("PostToolUse"@[1] != "PreToolUse"@[1]);
}

/// The context text for a session.
pub fn context(s: &Session) -> (r: String)
    ensures
        r@ == context_text(s@),
{
    let mut t = owned("the-gitfather: ");
    match &s.blueprint {
        Some(b) => push_str(&mut t, b.objective.as_str()),
        None => push_str(&mut t, "unplanned"),
    }
    push_str(&mut t, " | phase=");
    push_str(&mut t, phase_text(s.phase).as_str());
    push_str(&mut t, " layer=");
    push_str(&mut t, layer_text(&s.cursor.layer).as_str());
    push_str(&mut t, " remaining=");
    push_str(&mut t, decimal(s.cursor.incomplete_components.len() as u64).as_str());
    push_str(&mut t, " | next=");
    push_str(&mut t, s.cursor.next.as_str());
    push_str(&mut t, " | command=\"${PLUGIN_DATA}/the-gitfather\" --session ");
    push_str(&mut t, s.session_id.as_str());
    t
}

/// How a hook answers an event.
pub fn hook_action(event: &str, tool: &str, command: &str, patched: bool, s: &Session) -> (r: HookAction)
    ensures
        r@ == hook_answer(event@, tool@, command@, patched, s@),
{
    if text_eq(event, "PreToolUse") {
        if is_recognized_test(command) && !contains_wrapper(command) {
            return HookAction::Deny(
                owned("recognized test command: wrap it with the-gitfather check KIND LABEL -- COMMAND"),
            );
        }
        if text_eq(tool, "apply_patch") && s.phase == Phase::Complete {
            return HookAction::Deny(owned("project is complete; use changed or reset first"));
        }
        return HookAction::Allow;
    }
    if text_eq(event, "PostToolUse") && text_eq(tool, "apply_patch") && patched
        && s.blueprint.is_some() {
        return HookAction::RecordChange;
    }
    let c = context(s);
    HookAction::Context(cut(c.as_str(), 1500))
}

} // verus!
