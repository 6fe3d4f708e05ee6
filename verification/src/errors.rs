use vstd::prelude::*;

verus! {

/// The failures the engine can report.
#[derive(Debug, Clone, Copy, PartialEq, Eq, Structural)]
pub enum LsysError {
    /// A negative iteration count was handed to `generate_system`.
    BadArgument,
    /// A stochastic rule matched `predecessor`, but its alternatives carry no
    /// positive weight, so no successor can be drawn.
    EmptyAlternatives { predecessor: char },
    /// The interpreter met `]` with no saved state; `offset` is the index of
    /// the offending symbol in the input string.
    UnbalancedBracket { offset: usize },
}

impl LsysError {
    /// A short human-readable description, in place of `Display`.
    pub fn describe(&self) -> String {
        match self {
            LsysError::BadArgument => "iteration count must be non-negative".to_owned(),
            LsysError::EmptyAlternatives { predecessor: _ } => {
                "stochastic rule has no alternative with positive weight".to_owned()
            },
            LsysError::UnbalancedBracket { offset: _ } => {
                "`]` without a matching `[`".to_owned()
            },
        }
    }
}

} // verus!
