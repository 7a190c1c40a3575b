use vstd::prelude::*;

verus! {

/// Errors reported by the debugger.
#[derive(Debug, PartialEq, Eq)]
pub enum DebuggerError {
    /// A breakpoint request could not be honoured; the text says why.
    BreakpointError(String),
}

impl DebuggerError {
    /// The message carried by the error.
    pub open spec fn message(&self) -> Seq<char> {
        match self {
            DebuggerError::BreakpointError(m) => m@,
        }
    }

    /// Renders the error as text.
    pub fn to_string(&self) -> (s: String)
        ensures
            s@ == self.message(),
    {
        match self {
            DebuggerError::BreakpointError(m) => m.clone(),
        }
    }
}

} // verus!
