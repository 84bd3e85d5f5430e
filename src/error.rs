use vstd::prelude::*;

verus! {

/// The errors that sequencing operations can return.
#[derive(Debug, Clone, PartialEq, Eq)]
pub enum OrdiseqError {
    /// A time signature string that is malformed or not a valid signature,
    /// with the reason.
    InvalidTimeSignature(String),
    /// Transposition was asked of a sequence that holds a chord.
    ChordTranspositionUnsupported,
}

impl OrdiseqError {
    /// The human-readable message of this error.
    pub fn to_string(&self) -> (r: String)
        ensures
            r@ == self.message_spec(),
    {
        match self {
            OrdiseqError::InvalidTimeSignature(reason) => {
                let prefix = "Invalid time signature: ".to_string();
                prefix.concat(reason.as_str())
            },
            OrdiseqError::ChordTranspositionUnsupported => {
                "Chord transposition is not supported yet".to_string()
            },
        }
    }

    pub open spec fn message_spec(&self) -> Seq<char> {
        match self {
            OrdiseqError::InvalidTimeSignature(reason) => "Invalid time signature: "@ + reason@,
            OrdiseqError::ChordTranspositionUnsupported => "Chord transposition is not supported yet"@,
        }
    }
}

} // verus!
