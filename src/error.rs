//! Why a read failed.
use vstd::prelude::*;

verus! {

/// The failures of the readers and of the topology builder. Line numbers
/// count from zero over the whole file, header included.
#[derive(Debug, Clone, Copy, PartialEq, Eq, Structural)]
pub enum FoamError {
    /// The declared number of elements differs from the number read.
    CountMismatch { expected: usize, found: usize },
    /// A face line whose vertex count disagrees with its indices.
    FaceVertexMismatch { line: usize },
    /// A bracketed point line that does not decode.
    MalformedPoint { line: usize },
    /// The patch count of a boundary file is not followed by `(`.
    MissingOpenParen,
    /// A patch name is not followed by `{`.
    MissingOpenBrace,
    /// The boundary block is not closed before the end of the file.
    UnexpectedEnd,
    /// A key/value line without a value or without its `;`.
    MalformedKeyValue { line: usize },
    /// A key/value line whose value is not a number.
    MalformedValue { line: usize },
    /// No line starts with `internalField`.
    FieldNotFound,
    /// The `internalField` line is neither uniform nor nonuniform.
    FieldKindMissing,
    /// A uniform declaration without its bracketed value.
    MalformedUniform,
    /// A nonuniform declaration whose next line is not a count.
    MissingFieldCount,
    /// A nonuniform declaration with fewer lines than it declares.
    FieldTooShort,
    /// A mesh without faces.
    EmptyMesh,
    /// More neighbour entries than faces.
    NeighborsExceedFaces,
    /// A patch whose face range runs past the last face.
    PatchOutOfRange,
    /// A cell index too large to count cells with.
    CellCountOverflow,
}

} // verus!
