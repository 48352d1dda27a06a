//! The errors that the library reports.

use vstd::prelude::*;

verus! {

/// The kinds of failure that a loader distinguishes.
#[derive(Clone, Copy, Debug, PartialEq, Eq, Structural)]
pub enum ErrorKind {
    /// A source could not be read.
    SourceRead,
    /// A line of a source is malformed.
    Parse,
    /// A preprocessing step failed on a record.
    Preprocess,
    /// Labeling failed on a record.
    Label,
    /// Tokenization failed on a record.
    Tokenize,
    /// The text of a record could not be cut into windows.
    Window,
    /// The arguments of a constructor are invalid.
    Config,
    /// An invariant of the batcher or the tensorizer is violated.
    Contract,
}

impl ErrorKind {
    /// Whether a failure of this kind concerns a single record, which a
    /// training loader skips.
    pub open spec fn per_record(self) -> bool {
        self is SourceRead || self is Parse || self is Preprocess || self is Label
            || self is Tokenize
    }

    /// Decides `per_record`.
    pub fn is_per_record(self) -> (b: bool)
        ensures
            b == self.per_record(),
    {
        match self {
            ErrorKind::SourceRead
            | ErrorKind::Parse
            | ErrorKind::Preprocess
            | ErrorKind::Label
            | ErrorKind::Tokenize => true,
            _ => false,
        }
    }
}

/// Why a line of an inference file is malformed.
#[derive(Clone, Copy, Debug, PartialEq, Eq, Structural)]
pub enum ParseError {
    /// The line does not have the number of tab-separated fields of its format.
    FieldCount { expected: usize, found: usize },
    /// The entry at `position` of the detections field is no number from 0 to 255.
    Detection { position: usize },
}

/// Why the arguments of a constructor are invalid.
#[derive(Clone, Copy, Debug, PartialEq, Eq, Structural)]
pub enum ConfigError {
    /// No source was given.
    NoSources,
    /// Languages were given, but not one for every source.
    LanguageCount { sources: usize, languages: usize },
    /// Shuffling was asked for without a seed.
    ShuffleWithoutSeed,
    /// Sorting was asked for without shuffling.
    SortWithoutShuffle,
    /// The rank is not below the world size.
    InvalidRank { rank: usize, world_size: usize },
    /// The batch limit is zero.
    ZeroBatchLimit,
    /// The number of workers is not between 1 and 64.
    WorkerCount { workers: usize },
    /// Weights were given, but not one positive weight for every source.
    Weights,
}

/// Which invariant of the tensorizer a batch violates.
#[derive(Clone, Copy, Debug, PartialEq, Eq, Structural)]
pub enum ContractError {
    /// The batch holds no item.
    EmptyBatch,
    /// The item at `index` carries a sequence-to-sequence label.
    UnsupportedLabel { index: usize },
    /// The label of the item at `index` is of another variant than the first.
    MixedLabels { index: usize },
    /// The sequence label of the item at `index`, after the prefix positions,
    /// is longer than the label row.
    LabelTooLong { index: usize },
}

} // verus!
