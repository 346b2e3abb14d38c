//! The errors that stop a run, and their messages.

use vstd::prelude::*;

use crate::text::{decimal, push_decimal, push_str};

verus! {

/// Errors that can occur while finding, confirming or killing processes.
#[derive(Debug, PartialEq)]
pub enum WrathError {
    /// No process found using the specified port.
    NoProcessOnPort(u16),
    /// No process found with the specified name.
    NoProcessWithName(String),
    /// Failed to resolve port to a process ID.
    PortResolutionFailed(u16, String),
    /// Failed to kill a process.
    KillFailed(String),
    /// Confirmation is needed but stdin is not an interactive terminal.
    ConfirmationRequired,
    /// The user declined the confirmation.
    Aborted,
}

/// The message shown for an error.
pub open spec fn error_message(e: WrathError) -> Seq<char> {
    match e {
        WrathError::NoProcessOnPort(port) => "No process found using port "@ + decimal(
            port as nat,
        ),
        WrathError::NoProcessWithName(name) => "No process found with name '"@ + name@ + "'"@,
        WrathError::PortResolutionFailed(port, reason) => "Failed to resolve port "@ + decimal(
            port as nat,
        ) + ": "@ + reason@,
        WrathError::KillFailed(reason) => "Failed to kill process: "@ + reason@,
        WrathError::ConfirmationRequired => "Not an interactive terminal, use --yes to confirm"@,
        WrathError::Aborted => "Aborted, nothing was killed"@,
    }
}

impl WrathError {
    /// The message shown for this error.
    pub fn to_string(&self) -> (s: String)
        ensures
            s@ == error_message(*self),
    {
        let mut s = String::new();
        match self {
            WrathError::NoProcessOnPort(port) => {
                push_str(&mut s, "No process found using port ");
                push_decimal(&mut s, *port as u64);
            },
            WrathError::NoProcessWithName(name) => {
                push_str(&mut s, "No process found with name '");
                push_str(&mut s, name.as_str());
                push_str(&mut s, "'");
            },
            WrathError::PortResolutionFailed(port, reason) => {
                push_str(&mut s, "Failed to resolve port ");
                push_decimal(&mut s, *port as u64);
                push_str(&mut s, ": ");
                push_str(&mut s, reason.as_str());
            },
            WrathError::KillFailed(reason) => {
                push_str(&mut s, "Failed to kill process: ");
                push_str(&mut s, reason.as_str());
            },
            WrathError::ConfirmationRequired => {
                push_str(&mut s, "Not an interactive terminal, use --yes to confirm");
            },
            WrathError::Aborted => {
                push_str(&mut s, "Aborted, nothing was killed");
            },
        }
        assert(s@ =~= error_message(*self));
        s
    }
}

} // verus!
