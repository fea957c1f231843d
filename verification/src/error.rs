//! Errors of the segmentation pipeline.

use vstd::prelude::*;

verus! {

/// Everything that can go wrong in the pipeline. Any of these aborts the
/// current run: the pipeline never produces a partially annotated image
/// silently.
#[derive(Clone, Copy, PartialEq, Eq, Structural, Debug)]
pub enum BlobError {
    /// The raw byte buffer's length is not a multiple of the channel stride.
    MalformedBuffer,
    /// A selector was invoked on a set with no blobs.
    EmptySet,
    /// A blob member's position lies outside the canvas.
    OutOfBounds,
}

impl BlobError {
    /// A short description of the error.
    pub fn describe(&self) -> (s: &'static str)
        ensures
            s@ =~= match *self {
                BlobError::MalformedBuffer => "buffer length is not a multiple of the channel stride"@,
                BlobError::EmptySet => "no blobs to select from"@,
                BlobError::OutOfBounds => "blob member position outside the canvas"@,
            },
    {
        match *self {
            BlobError::MalformedBuffer => "buffer length is not a multiple of the channel stride",
            BlobError::EmptySet => "no blobs to select from",
            BlobError::OutOfBounds => "blob member position outside the canvas",
        }
    }
}

} // verus!
