//! Switches of the command line as the choices they stand for, so that a call
//! reads as what it means rather than as a bare boolean.

use vstd::prelude::*;

verus! {

/// How an answer is written.
#[derive(Clone, Copy, PartialEq, Eq, Structural, Debug)]
pub enum Format {
    Human,
    Json,
}

/// Whether a command is run, or only shown.
#[derive(Clone, Copy, PartialEq, Eq, Structural, Debug)]
pub enum Execute {
    Yes,
    No,
}

/// Whether a package is evaluated, or its indexed store path substituted.
#[derive(Clone, Copy, PartialEq, Eq, Structural, Debug)]
pub enum Speed {
    Eval,
    Fast,
}

/// What `--json` stands for.
pub fn form(json: bool) -> (r: Format)
    ensures
        r == if json {
            Format::Json
        } else {
            Format::Human
        },
{
    if json {
        Format::Json
    } else {
        Format::Human
    }
}

/// What `--dry-run` stands for.
pub fn execute(dry_run: bool) -> (r: Execute)
    ensures
        r == if dry_run {
            Execute::No
        } else {
            Execute::Yes
        },
{
    if dry_run {
        Execute::No
    } else {
        Execute::Yes
    }
}

/// What `--eval` stands for.
pub fn speed(eval: bool) -> (r: Speed)
    ensures
        r == if eval {
            Speed::Eval
        } else {
            Speed::Fast
        },
{
    if eval {
        Speed::Eval
    } else {
        Speed::Fast
    }
}

} // verus!
