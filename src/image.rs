//! What the core keeps of a decoded image's orientation.
use vstd::prelude::*;

verus! {

/// Rotation to apply when displaying an image so that it appears as taken.
#[derive(Debug, Clone, Copy, PartialEq, Eq, Structural)]
pub enum ImageRotation {
    Upright,
    NinetyCW,
    NinetyCCW,
    OneEighty,
}

/// The rotation for an EXIF orientation value: 1 is upright, 3 is turned
/// by 180 degrees, 6 needs a quarter turn clockwise, 8 one counter-clockwise.
/// Mirrored orientations, unknown values and a missing value are shown as
/// they are.
pub open spec fn rotation_of(orientation: Option<u32>) -> ImageRotation {
    match orientation {
        Some(3) => ImageRotation::OneEighty,
        Some(6) => ImageRotation::NinetyCW,
        Some(8) => ImageRotation::NinetyCCW,
        _ => ImageRotation::Upright,
    }
}

pub fn rotation_from_orientation(orientation: Option<u32>) -> (r: ImageRotation)
    ensures
        r == rotation_of(orientation),
{
    match orientation {
        Some(1) => ImageRotation::Upright,
        Some(3) => ImageRotation::OneEighty,
        Some(6) => ImageRotation::NinetyCW,
        Some(8) => ImageRotation::NinetyCCW,
        _ => ImageRotation::Upright,
    }
}

/// Width and height of an image of `size` once displayed with `rotation`.
pub fn rotated_size(size: [usize; 2], rotation: ImageRotation) -> (r: [usize; 2])
    ensures
        match rotation {
            ImageRotation::Upright | ImageRotation::OneEighty => r@ == size@,
            ImageRotation::NinetyCW | ImageRotation::NinetyCCW => r@ == seq![size@[1], size@[0]],
        },
{
    match rotation {
        ImageRotation::Upright | ImageRotation::OneEighty => [size[0], size[1]],
        ImageRotation::NinetyCW | ImageRotation::NinetyCCW => [size[1], size[0]],
    }
}

/// What a load worker reports for one task.
#[derive(Debug, Clone, Copy, PartialEq, Eq, Structural)]
pub enum LoadNotification {
    ImageLoaded,
    LoadFailed,
}

/// What the interaction loop should do next; a later variant is stronger and
/// overrides an earlier one.
#[derive(Debug, Clone, Copy, PartialEq, Eq, Structural, PartialOrd, Ord)]
pub enum LoopSignal {
    Wait,
    RequestRedraw,
    ImmediateRedraw,
    Exit,
}

} // verus!
