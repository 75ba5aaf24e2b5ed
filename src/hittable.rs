//! The record of a ray meeting a surface, and the closed set of primitive kinds.
use vstd::prelude::*;

use crate::geometry::{
    AABox, Sphere, XYRect, XZRect, YZRect, box_hit_of, lemma_xy_hit_on_rect, lemma_xz_hit_on_rect,
    lemma_yz_hit_on_rect, ray_wf, sphere_hit_of, xy_hit_of, xz_hit_of, yz_hit_of,
};
use crate::material::Material;
use crate::ray::Ray;
use crate::vmaths::{LIMIT, Point, bounded};

verus! {

/// Where a ray met a surface, the surface normal there (not of unit length) and the
/// surface's material.
#[derive(Clone, Copy, Debug, PartialEq, Eq)]
pub struct HitInfo {
    pub ip: Point,
    pub norm: Point,
    pub hit_mat: Material,
}

/// A hit whose point, normal and material are within the ranges that shading accepts.
pub open spec fn hit_in_range(h: HitInfo) -> bool {
    bounded(h.ip, 2 * LIMIT) && bounded(h.norm, LIMIT as int) && h.hit_mat.wf()
}

/// One primitive of a scene.
#[derive(Clone, Copy, Debug, PartialEq, Eq)]
pub enum Hittable {
    Sphere(Sphere),
    XYRect(XYRect),
    XZRect(XZRect),
    YZRect(YZRect),
    AABox(AABox),
}

/// What `Hittable::hits` returns.
pub open spec fn hit_of(obj: Hittable, ray: Ray) -> Option<HitInfo> {
    match obj {
        Hittable::Sphere(s) => sphere_hit_of(s, ray),
        Hittable::XYRect(r) => xy_hit_of(r, ray),
        Hittable::XZRect(r) => xz_hit_of(r, ray),
        Hittable::YZRect(r) => yz_hit_of(r, ray),
        Hittable::AABox(b) => box_hit_of(b, ray),
    }
}

impl Hittable {
    /// The primitive is well formed.
    pub open spec fn wf(self) -> bool {
        match self {
            Hittable::Sphere(s) => s.wf(),
            Hittable::XYRect(r) => r.wf(),
            Hittable::XZRect(r) => r.wf(),
            Hittable::YZRect(r) => r.wf(),
            Hittable::AABox(b) => b.wf(),
        }
    }

    /// Intersection of the ray with the primitive.
    pub fn hits(&self, ray: &Ray) -> (res: Option<HitInfo>)
        requires
            self.wf(),
            ray_wf(*ray),
        ensures
            res == hit_of(*self, *ray),
            res matches Some(h) ==> hit_in_range(h),
    {
        match self {
            Hittable::Sphere(s) => s.hits(ray),
            Hittable::XYRect(r) => {
                proof {
                    lemma_xy_hit_on_rect(*r, *ray);
                    crate::geometry::lemma_rect_wf_xy(*r);
                }
                r.hits(ray)
            },
            Hittable::XZRect(r) => {
                proof {
                    lemma_xz_hit_on_rect(*r, *ray);
                    crate::geometry::lemma_rect_wf_xz(*r);
                }
                r.hits(ray)
            },
            Hittable::YZRect(r) => {
                proof {
                    lemma_yz_hit_on_rect(*r, *ray);
                    crate::geometry::lemma_rect_wf_yz(*r);
                }
                r.hits(ray)
            },
            Hittable::AABox(b) => b.hits(ray),
        }
    }

    /// A representative point of the primitive.
    pub fn get_pos(&self) -> (r: Point)
        ensures
            r == match *self {
                Hittable::Sphere(s) => s.cen,
                Hittable::XYRect(rc) => Point { x: 0, y: 0, z: rc.z },
                Hittable::XZRect(rc) => Point { x: 0, y: rc.y, z: 0 },
                Hittable::YZRect(rc) => Point { x: rc.x, y: 0, z: 0 },
                Hittable::AABox(_) => Point { x: 0, y: 0, z: 0 },
            },
    {
        match self {
            Hittable::Sphere(s) => s.get_pos(),
            Hittable::XYRect(r) => r.get_pos(),
            Hittable::XZRect(r) => r.get_pos(),
            Hittable::YZRect(r) => r.get_pos(),
            Hittable::AABox(b) => b.get_pos(),
        }
    }
}

} // verus!
