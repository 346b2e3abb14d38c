//! The command line and the detection of what its target names.

use vstd::prelude::*;

use crate::text::{chars_of, parse_unsigned, parse_unsigned_range};

verus! {

/// The command line: the target to kill, a port number or a process name.
#[derive(Debug)]
pub struct Cli {
    /// The target to kill: a port number or a process name.
    pub target: String,
}

/// What the target of the command line names.
#[derive(Debug, PartialEq)]
pub enum Target {
    /// Kill the process(es) holding this port.
    Port(u16),
    /// Kill the process(es) with this name.
    Name(String),
}

/// Whether `s` reads as a port number: an unsigned integer from 1 to 65535.
pub open spec fn names_port(s: Seq<char>) -> bool {
    parse_unsigned(s) matches Some(v) && 0 < v <= 65535
}

/// Parse the raw target into a `Target`: a port when it reads as a number from 1 to
/// 65535, a process name otherwise.
pub fn parse_target(target: &str) -> (t: Target)
    ensures
        match t {
            Target::Port(p) => names_port(target@) && parse_unsigned(target@) == Some(p as nat),
            Target::Name(n) => !names_port(target@) && n@ == target@,
        },
{
    let v = chars_of(target);
    let parsed = parse_unsigned_range(&v, 0, v.len(), 65535);
    assert(v@.subrange(0, v@.len() as int) =~= target@);
    match parsed {
        Some(port) if port > 0 => Target::Port(port as u16),
        _ => Target::Name(target.to_owned()),
    }
}

} // verus!
