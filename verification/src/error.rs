//! Errors the segmentation engine can report.

use vstd::prelude::*;

verus! {

/// An error raised while configuring or loading the segmentation engine.
///
/// The engine itself performs no I/O; network and cache failures belong to
/// the surrounding model loader, not to this type.
#[derive(Clone, Copy, Debug, PartialEq, Eq, Structural)]
pub enum SplitError {
    /// The threshold is outside `(0, 1)`, or a size option is zero, or the
    /// stride exceeds the window length.
    InvalidOptions,
    /// The model's hierarchy descriptor is missing, empty, or its channel
    /// count does not match the model's output channel count.
    MalformedModelMetadata,
}

} // verus!
