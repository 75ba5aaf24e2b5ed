//! Rays: an origin and a direction, evaluated at a fixed-point parameter.
use vstd::prelude::*;

use crate::vmaths::{Point, bounded, plus_of, scaled_of};

verus! {

/// The half-line `P(t) = origin + t * dir`.
#[derive(Clone, Copy, Debug, PartialEq, Eq, Structural)]
pub struct Ray {
    pub origin: Point,
    pub dir: Point,
}

/// The point of `ray` at the fixed-point parameter `t`.
pub open spec fn at_of(ray: Ray, t: int) -> Point {
    plus_of(ray.origin, scaled_of(ray.dir, t))
}

impl Ray {
    /// Components small enough for evaluation at any parameter in `[-2^38, 2^38]`.
    pub open spec fn evaluable(self) -> bool {
        bounded(self.origin, 0x1000_0000_0000_0000) && bounded(self.dir, 0x40_0000_0000)
    }

    /// The point `origin + dir * t`, each component rounded down.
    pub fn at(&self, t: i64) -> (r: Point)
        requires
            self.evaluable(),
            -0x40_0000_0000 <= t <= 0x40_0000_0000,
        ensures
            r == at_of(*self, t as int),
    {
        let step = self.dir.scaled(t);
        proof {
            crate::vmaths::lemma_mul_bound_scaled(self.dir, t as int);
        }
        self.origin.plus(step)
    }
}

/// Evaluating a ray at parameter zero gives its origin.
pub proof fn lemma_at_zero(ray: Ray)
    ensures
        at_of(ray, 0) == ray.origin,
{
    assert(scaled_of(ray.dir, 0) == (Point { x: 0, y: 0, z: 0 }));
}

} // verus!
