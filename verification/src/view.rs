//! Visibility shapes: what part of the maze an entity may see before
//! occlusion is applied.
use vstd::prelude::*;

verus! {

/// A visibility shape. Bounded shapes carry a radius; `Full` sees the whole
/// maze with no occlusion or directionality.
#[derive(Debug, Clone, Copy, PartialEq, Eq, Structural)]
pub enum View {
    Cone { radius: usize },
    Plane { radius: usize },
    Circle { radius: usize },
    Full,
}

/// Largest radius any vision tier can produce (`Circle` at the top
/// `Circle` tier); bounded views are well formed only below it.
pub const MAX_VIEW_RADIUS: usize = 16;

impl View {
    pub open spec fn radius_spec(self) -> usize {
        match self {
            View::Cone { radius } => radius,
            View::Plane { radius } => radius,
            View::Circle { radius } => radius,
            View::Full => usize::MAX,
        }
    }

    /// The range bound of this shape; `Full` is unbounded.
    pub fn radius(&self) -> (r: usize)
        ensures
            r == self.radius_spec(),
    {
        match self {
            View::Cone { radius } => *radius,
            View::Plane { radius } => *radius,
            View::Circle { radius } => *radius,
            View::Full => usize::MAX,
        }
    }

    /// A well-formed view has a positive, tier-bounded radius. Every view
    /// produced by `view_for_vision` satisfies this.
    pub open spec fn wf(self) -> bool {
        match self {
            View::Full => true,
            _ => 1 <= self.radius_spec() <= MAX_VIEW_RADIUS,
        }
    }

    pub open spec fn is_full(self) -> bool {
        self is Full
    }
}

/// The shape a vision stat grants: a monotonic step function. Coarse stats
/// give a forward cone, middle stats a half-plane, high stats a bounded
/// all-around view, and the top tier the whole maze.
pub open spec fn view_for_vision_spec(vision: usize) -> View {
    if vision <= 2 {
        View::Cone { radius: (6 + vision) as usize }
    } else if vision <= 4 {
        View::Plane { radius: (5 + vision) as usize }
    } else if vision <= 7 {
        View::Circle { radius: (4 + vision) as usize }
    } else {
        View::Full
    }
}

pub fn view_for_vision(vision: usize) -> (r: View)
    ensures
        r == view_for_vision_spec(vision),
        r.wf(),
{
    if vision <= 2 {
        View::Cone { radius: 6 + vision }
    } else if vision <= 4 {
        View::Plane { radius: 5 + vision }
    } else if vision <= 7 {
        View::Circle { radius: 4 + vision }
    } else {
        View::Full
    }
}

/// Milliseconds an entity must wait between successful moves: a base latency
/// plus a speed-tier discount.
pub open spec fn movement_recovery_ms_spec(speed: u64) -> u64 {
    (50 + if 25 * speed <= 200 {
        (200 - 25 * speed) as u64
    } else {
        0u64
    }) as u64
}

pub fn movement_recovery_ms(speed: u64) -> (r: u64)
    ensures
        r == movement_recovery_ms_spec(speed),
        50 <= r <= 250,
{
    if speed <= 8 {
        50 + (200 - 25 * speed)
    } else {
        50
    }
}

} // verus!
