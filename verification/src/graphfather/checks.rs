//! How the GraphFather reads a wrapped check's arguments.
use vstd::prelude::*;
use crate::graphfather::hooks::{recognized, recognized_argv, scannable};
use crate::ledger::checks::{argv_digest, argv_hash, check_args, check_args_of, CheckArgs, CheckArgsView};
use crate::ledger::model::{CheckKind, LedgerError};

verus! {

/// The check request that arguments make here: the label is bounded, and a
/// smoke check may not run a recognized test command.
pub open spec fn check_request(a: Seq<Seq<char>>) -> Result<CheckArgsView, LedgerError> {
    match check_args_of(a, true) {
        Err(e) => Err(e),
        Ok(v) => if v.kind == CheckKind::Smoke && recognized(v.argv) {
            Err(LedgerError::SmokeTestCommand)
        } else {
            Ok(v)
        },
    }
}

/// A smoke check never runs a recognized test command; every accepted
/// request is the one its arguments make.
pub proof fn law_smoke_never_runs_tests(a: Seq<Seq<char>>)
    ensures
        check_request(a) matches Ok(v) ==> check_args_of(a, true) == Ok::<CheckArgsView, LedgerError>(v)
            && (v.kind == CheckKind::Smoke ==> !recognized(v.argv)),
        check_args_of(a, true) matches Ok(v) && v.kind == CheckKind::Smoke && recognized(v.argv) ==> check_request(a)
            == Err::<CheckArgsView, LedgerError>(LedgerError::SmokeTestCommand),
{
}

/// The command of a smoke check stays within reach of the test scan.
pub open spec fn smoke_scannable(a: Seq<Seq<char>>) -> bool {
    match check_args_of(a, true) {
        Ok(v) => v.kind == CheckKind::Smoke ==> scannable(v.argv),
        Err(_) => true,
    }
}

/// Reads `KIND LABEL [--reason TEXT]... -- COMMAND...` and the command's
/// digest.
pub fn parse_check(a: &[String]) -> (r: Result<(CheckArgs, String), LedgerError>)
    requires
        smoke_scannable(a.deep_view()),
    ensures
        match check_request(a.deep_view()) {
            Ok(v) => r matches Ok((x, h)) && x@ == v && h@ == argv_digest(v.argv),
            Err(e) => r == Err::<(CheckArgs, String), LedgerError>(e),
        },
{
    let c = match check_args(a, true) {
        Err(e) => return Err(e),
        Ok(c) => c,
    };
    if c.kind == CheckKind::Smoke && recognized_argv(c.argv.as_slice()) {
        return Err(LedgerError::SmokeTestCommand);
    }
    let h = argv_hash(&c.argv);
    Ok((c, h))
}

} // verus!
