use vstd::prelude::*;

verus! {

/// Why a pipeline stage refused its input. Every failure is fatal to the
/// whole run: nothing is retried and no partial model is produced.
#[derive(Debug, PartialEq, Eq, Structural, Clone, Copy)]
pub enum ModelError {
    /// No relation in the element graph carries the requested name tag.
    TrackNotFound,
    /// A referenced identity is absent from the element graph.
    MissingElement(i64),
    /// A reference resolved to an element of an unexpected kind.
    KindMismatch(i64),
    /// A container element was reached a second time during one traversal.
    CycleDetected(i64),
    /// An axis has zero extent, so no finite scale factor exists for it.
    DegenerateAxis,
    /// A way holds fewer than two points, or two consecutive points of a
    /// way coincide, so there is no direction to extrude along.
    DegenerateWay,
}

} // verus!
