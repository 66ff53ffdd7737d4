//! The ways in which a join fails.

use vstd::prelude::*;

verus! {

/// The three classes of failure.
#[derive(Clone, Copy, Debug, PartialEq, Eq, Structural)]
pub enum ErrorKind {
    /// The request itself is at fault.
    Usage,
    /// A dataset could not be read at the place asked for.
    Io,
    /// A dataset holds a malformed record.
    Parse,
}

/// Which of the two inputs is meant.
#[derive(Clone, Copy, Debug, PartialEq, Eq, Structural)]
pub enum Side {
    Left,
    Right,
}

/// A failed join. The first error found ends the run.
#[derive(Clone, Copy, Debug, PartialEq, Eq, Structural)]
pub enum JoinError {
    /// More than one join mode was asked for.
    ModeConflict,
    /// Item `item` of the column selector for `side`, counted from 0,
    /// names no column.
    BadColumn { side: Side, item: usize },
    /// The two selections differ in their number of columns.
    SelectionMismatch { left: usize, right: usize },
    /// A selection names position `position` of the dataset on `side`, whose
    /// rows have only `width` fields.
    ColumnOutOfRange { side: Side, position: usize, width: usize },
    /// A seek to a place that the dataset does not have.
    Seek,
    /// A record is malformed, or has not as many fields as the first record
    /// of its dataset.
    Parse,
}

impl JoinError {
    /// The class of this error.
    pub open spec fn spec_kind(self) -> ErrorKind {
        match self {
            JoinError::ModeConflict => ErrorKind::Usage,
            JoinError::BadColumn { .. } => ErrorKind::Usage,
            JoinError::SelectionMismatch { .. } => ErrorKind::Usage,
            JoinError::ColumnOutOfRange { .. } => ErrorKind::Usage,
            JoinError::Seek => ErrorKind::Io,
            JoinError::Parse => ErrorKind::Parse,
        }
    }

    /// The class of this error.
    #[verifier::when_used_as_spec(spec_kind)]
    pub fn kind(self) -> (kind: ErrorKind)
        ensures
            kind == self.spec_kind(),
    {
        match self {
            JoinError::ModeConflict => ErrorKind::Usage,
            JoinError::BadColumn { .. } => ErrorKind::Usage,
            JoinError::SelectionMismatch { .. } => ErrorKind::Usage,
            JoinError::ColumnOutOfRange { .. } => ErrorKind::Usage,
            JoinError::Seek => ErrorKind::Io,
            JoinError::Parse => ErrorKind::Parse,
        }
    }
}

} // verus!
