use vstd::prelude::*;
use crate::observability::tracing::framed;

verus! {

/// Consensus-level error used across mining, DAG and sync logic.
#[derive(Debug)]
pub enum ConsensusError {
    /// A consensus validation or state error.
    InvalidState(String),
    /// An underlying I/O or storage error.
    Io(String),
    /// Any other error.
    Other(String),
}

/// The text of an error.
pub open spec fn error_text(e: ConsensusError) -> Seq<char> {
    match e {
        ConsensusError::InvalidState(s) => "Consensus state error: "@ + s@,
        ConsensusError::Io(s) => "IO error: "@ + s@,
        ConsensusError::Other(s) => s@,
    }
}

impl ConsensusError {
    /// The error's text: a kind prefix, then its message.
    pub fn message(&self) -> (s: String)
        ensures
            s@ == error_text(*self),
    {
        proof {
            reveal_strlit("");
        }
        match self {
            ConsensusError::InvalidState(s) => {
                let m = framed("Consensus state error: ", s.as_str(), "");
                assert(m@ =~= "Consensus state error: "@ + s@);
                m
            },
            ConsensusError::Io(s) => {
                let m = framed("IO error: ", s.as_str(), "");
                assert(m@ =~= "IO error: "@ + s@);
                m
            },
            ConsensusError::Other(s) => s.clone(),
        }
    }
}

impl From<String> for ConsensusError {
    fn from(s: String) -> (e: Self) {
        ConsensusError::Other(s)
    }
}

impl vstd::std_specs::convert::FromSpecImpl<String> for ConsensusError {
    open spec fn obeys_from_spec() -> bool {
        true
    }

    open spec fn from_spec(v: String) -> ConsensusError {
        ConsensusError::Other(v)
    }
}

} // verus!
