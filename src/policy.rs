//! The size limits that guard against accidentally huge files, and the
//! reading of a yes/no confirmation.

use vstd::prelude::*;
use vstd::string::*;

verus! {

/// Largest size that is ever generated: 5 GiB.
pub const MAXSIZE: u64 = 5 * 1024 * 1024 * 1024;

/// Sizes above this, 100 MiB, need the exceed flag and a confirmation.
pub const WARNSIZE: u64 = 100 * 1024 * 1024;

/// What to do with a requested size.
#[derive(Clone, Copy, Debug, PartialEq, Eq, Structural)]
pub enum Gate {
    /// Generate without asking.
    Proceed,
    /// The size is large and the exceed flag is set: ask the user first.
    Confirm,
    /// The size is large and the exceed flag is not set: refuse.
    NeedsExceed,
    /// The size is above the hard maximum: refuse, whatever the flags say.
    TooLarge,
}

/// The decision for a size in bytes and the exceed flag.
pub open spec fn gate_of(size: u64, exceed: bool) -> Gate {
    if size > MAXSIZE {
        Gate::TooLarge
    } else if size > WARNSIZE {
        if exceed {
            Gate::Confirm
        } else {
            Gate::NeedsExceed
        }
    } else {
        Gate::Proceed
    }
}

/// Decides whether a size in bytes may be generated.
pub fn gate(size: u64, exceed: bool) -> (r: Gate)
    ensures
        r == gate_of(size, exceed),
{
    if size > MAXSIZE {
        Gate::TooLarge
    } else if size > WARNSIZE {
        if exceed {
            Gate::Confirm
        } else {
            Gate::NeedsExceed
        }
    } else {
        Gate::Proceed
    }
}

/// A size at or below the warning size always proceeds, with or without the
/// exceed flag: no confirmation and no flag is asked for. A size above the
/// hard maximum is always refused, with or without the flag.
pub proof fn lemma_gate_thresholds(size: u64, exceed: bool)
    ensures
        size <= WARNSIZE ==> gate_of(size, exceed) == Gate::Proceed,
        size > MAXSIZE ==> gate_of(size, exceed) == Gate::TooLarge,
        gate_of(size, exceed) == Gate::Proceed || gate_of(size, exceed) == Gate::TooLarge
            ==> gate_of(size, exceed) == gate_of(size, !exceed),
{
}

/// How an answer to a yes/no question reads.
#[derive(Clone, Copy, Debug, PartialEq, Eq, Structural)]
pub enum Reply {
    Yes,
    No,
    /// Neither: ask again.
    Unclear,
}

/// `y` or `Y` is yes; nothing, `n` or `N` is no; anything else is unclear.
pub open spec fn reply_of(answer: Seq<char>) -> Reply {
    if answer == seq!['y'] || answer == seq!['Y'] {
        Reply::Yes
    } else if answer.len() == 0 || answer == seq!['n'] || answer == seq!['N'] {
        Reply::No
    } else {
        Reply::Unclear
    }
}

/// Reads an answer, with the surrounding blanks already removed.
pub fn read_reply(answer: &str) -> (r: Reply)
    ensures
        r == reply_of(answer@),
{
    let n = answer.unicode_len();
    if n == 0 {
        Reply::No
    } else if n == 1 {
        let c = answer.get_char(0);
        proof {
            assert(answer@ =~= seq![c]);
        }
        if c == 'y' || c == 'Y' {
            Reply::Yes
        } else if c == 'n' || c == 'N' {
            Reply::No
        } else {
            Reply::Unclear
        }
    } else {
        Reply::Unclear
    }
}

} // verus!
