use vstd::prelude::*;

verus! {

/// A range of integers, inclusive at both ends.
#[derive(Clone, Copy, Debug, PartialEq, Eq, Structural)]
pub struct Range {
    pub low: usize,
    pub high: usize,
}

impl Range {
    /// An inclusive range is well formed only when it is non-empty;
    /// a draw from an empty inclusive range has no valid value.
    pub open spec fn wf(self) -> bool {
        self.low <= self.high
    }
}

/// Parameters that describe the process by which a password was generated.
#[derive(Clone, Copy, Debug, PartialEq, Eq, Structural)]
pub struct DicewareParams {
    /// The number of words used in the passphrase
    pub words: Range,
    /// The number of extra characters added to the passphrase
    pub extras: Range,
}

impl DicewareParams {
    pub open spec fn wf(self) -> bool {
        self.words.wf() && self.extras.wf()
    }
}

} // verus!
