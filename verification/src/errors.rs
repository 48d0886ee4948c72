use vstd::prelude::*;

verus! {

/// What kind of record a failed lookup was after.
#[derive(Clone, Copy, Debug, PartialEq, Eq)]
pub enum NotFoundKind {
    /// No trip references the shape.
    Trip,
    /// A trip's route identifier matches no route.
    Route,
    /// A stop index is out of range, or a stop has no coordinates.
    Stop,
}

/// Everything that can go wrong while exporting data.
#[derive(Clone, Copy, Debug, PartialEq, Eq)]
pub enum DataExportError {
    /// A file could not be created or written. Only the unverified I/O layer
    /// produces this; the buffer-building functions never do.
    IoError,
    /// A lookup that the input data was expected to satisfy failed.
    NotFound { kind: NotFoundKind, id: u32 },
    /// The container would need an offset beyond what a 32-bit header field
    /// can hold.
    TooLarge,
}

} // verus!
