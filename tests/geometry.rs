use rusty_tracer::fixed::SCALE;
use rusty_tracer::geometry::{AABox, Sphere, XYRect, XZRect, YZRect};
use rusty_tracer::hittable::Hittable;
use rusty_tracer::material::Material;
use rusty_tracer::ray::Ray;
use rusty_tracer::vmaths::Point;

const S: i64 = SCALE;

fn ray(o: (i64, i64, i64), d: (i64, i64, i64)) -> Ray {
    Ray { origin: Point::gen(o.0, o.1, o.2), dir: Point::gen(d.0, d.1, d.2) }
}

fn sphere(c: (i64, i64, i64), r: i64) -> Sphere {
    Sphere { cen: Point::gen(c.0, c.1, c.2), r, material: Material::shiny_red() }
}

#[test]
fn sphere_head_on_takes_far_root() {
    let s = sphere((0, 0, 8 * S), 4 * S);
    let h = s.hits(&ray((0, 0, 0), (0, 0, S))).unwrap();
    assert_eq!(h.ip, Point::gen(0, 0, 12 * S));
    assert_eq!(h.norm, Point::gen(0, 0, 4 * S));
    assert_eq!(h.hit_mat, Material::shiny_red());
}

#[test]
fn sphere_hit_independent_of_direction_length() {
    let s = sphere((0, 0, 8 * S), 4 * S);
    let h = s.hits(&ray((0, 0, 0), (0, 0, 3 * S))).unwrap();
    assert_eq!(h.ip, Point::gen(0, 0, 12 * S));
}

#[test]
fn sphere_ray_from_surface_lands_on_surface() {
    let s = sphere((0, 0, 0), S);
    let h = s.hits(&ray((S, 0, 0), (-S, 0, 0))).unwrap();
    assert_eq!(h.ip, Point::gen(-S, 0, 0));
    let d = h.ip.minus(s.cen);
    assert_eq!(d.dot(d), (S as i128) * (S as i128));
}

#[test]
fn sphere_ray_from_surface_outwards_stays_at_origin() {
    let s = sphere((0, 0, 0), S);
    let h = s.hits(&ray((0, S, 0), (0, S, S))).unwrap();
    assert_eq!(h.ip, Point::gen(0, S, 0));
}

#[test]
fn sphere_miss_outside_silhouette() {
    let s = sphere((0, 0, 8 * S), 4 * S);
    assert!(s.hits(&ray((0, 0, 0), (S, 0, 0))).is_none());
    assert!(s.hits(&ray((0, 5 * S, 0), (0, 0, S))).is_none());
}

#[test]
fn sphere_tangent_hit_at_closest_approach() {
    let s = sphere((0, 0, 8 * S), 4 * S);
    let h = s.hits(&ray((0, 4 * S - 10, 0), (0, 0, S))).unwrap();
    assert_eq!(h.ip, Point::gen(0, 4 * S - 10, 8 * S));
    assert_eq!(h.norm, Point::gen(0, 4 * S - 10, 0));
}

#[test]
fn sphere_exact_tangent_misses() {
    let s = sphere((0, 0, 8 * S), 4 * S);
    assert!(s.hits(&ray((0, 4 * S, 0), (0, 0, S))).is_none());
}

#[test]
fn sphere_zero_direction_misses() {
    let s = sphere((0, 0, 8 * S), 4 * S);
    assert!(s.hits(&ray((0, 0, 0), (0, 0, 0))).is_none());
}

#[test]
fn sphere_get_pos_is_center() {
    assert_eq!(sphere((1, 2, 3), 4).get_pos(), Point::gen(1, 2, 3));
}

#[test]
fn xy_rect_hit_and_normal() {
    let r = XYRect::gen(4 * S, -2 * S, 2 * S, -2 * S, 2 * S);
    let h = r.hits(&ray((0, 0, 0), (0, 0, S))).unwrap();
    assert_eq!(h.ip, Point::gen(0, 0, 4 * S));
    assert_eq!(h.norm, Point::gen(0, 0, -S));
    let below = XYRect::gen(-4 * S, -2 * S, 2 * S, -2 * S, 2 * S);
    let g = below.hits(&ray((0, 0, 0), (0, 0, -S))).unwrap();
    assert_eq!(g.ip, Point::gen(0, 0, -4 * S));
    assert_eq!(g.norm, Point::gen(0, 0, S));
}

#[test]
fn xy_rect_oblique_hit() {
    let r = XYRect::gen(4 * S, -2 * S, 2 * S, -2 * S, 2 * S);
    let h = r.hits(&ray((0, 0, 0), (S, -S, 4 * S))).unwrap();
    assert_eq!(h.ip, Point::gen(S, -S, 4 * S));
}

#[test]
fn xy_rect_parallel_ray_misses() {
    let r = XYRect::gen(4 * S, -2 * S, 2 * S, -2 * S, 2 * S);
    assert!(r.hits(&ray((0, 0, 4 * S), (S, 0, 0))).is_none());
}

#[test]
fn xy_rect_outside_bounds_misses() {
    let r = XYRect::gen(4 * S, -2 * S, 2 * S, -2 * S, 2 * S);
    assert!(r.hits(&ray((0, 0, 0), (S, 0, S))).is_none());
}

#[test]
fn xy_rect_bounds_are_inclusive() {
    let r = XYRect::gen(4 * S, -2 * S, 2 * S, -2 * S, 2 * S);
    let h = r.hits(&ray((0, 0, 0), (S, S, 2 * S))).unwrap();
    assert_eq!(h.ip, Point::gen(2 * S, 2 * S, 4 * S));
}

#[test]
fn xy_rect_behind_origin_still_hits() {
    let r = XYRect::gen(4 * S, -2 * S, 2 * S, -2 * S, 2 * S);
    let h = r.hits(&ray((0, 0, 8 * S), (0, 0, S))).unwrap();
    assert_eq!(h.ip, Point::gen(0, 0, 4 * S));
}

#[test]
fn xy_rect_translation_keeps_hit() {
    let r = XYRect::gen(4 * S, -2 * S, 2 * S, -2 * S, 2 * S);
    let moved = XYRect::gen(4 * S, -S, 3 * S, 0, 4 * S);
    let a = r.hits(&ray((0, 0, 0), (S, S, 2 * S))).unwrap();
    let b = moved.hits(&ray((S, 2 * S, 0), (S, S, 2 * S))).unwrap();
    assert_eq!(b.ip, Point::gen(a.ip.x + S, a.ip.y + 2 * S, a.ip.z));
    assert!(r.hits(&ray((0, 0, 0), (S, 0, S))).is_none());
    assert!(moved.hits(&ray((S, 2 * S, 0), (S, 0, S))).is_none());
}

#[test]
fn xz_rect_hit_and_normal() {
    let r = XZRect::gen(4 * S, -8 * S, 8 * S, -4 * S, 4 * S);
    let h = r.hits(&ray((0, 0, 0), (0, S, S))).unwrap();
    assert_eq!(h.ip, Point::gen(0, 4 * S, 4 * S));
    assert_eq!(h.norm, Point::gen(0, S, 0));
    let floor = XZRect::gen(-4 * S, -8 * S, 8 * S, -4 * S, 4 * S);
    let g = floor.hits(&ray((0, 0, 0), (0, -S, 0))).unwrap();
    assert_eq!(g.norm, Point::gen(0, -S, 0));
}

#[test]
fn xz_rect_translation_keeps_hit() {
    let r = XZRect::gen(4 * S, -S, S, -S, S);
    let moved = XZRect::gen(4 * S, 2 * S, 4 * S, -4 * S, -2 * S);
    let a = r.hits(&ray((0, 0, 0), (S, 4 * S, 0))).unwrap();
    let b = moved.hits(&ray((3 * S, 0, -3 * S), (S, 4 * S, 0))).unwrap();
    assert_eq!(b.ip, Point::gen(a.ip.x + 3 * S, a.ip.y, a.ip.z - 3 * S));
}

#[test]
fn yz_rect_hit_and_normal() {
    let r = YZRect::gen(8 * S, -4 * S, 4 * S, -4 * S, 4 * S);
    let h = r.hits(&ray((0, 0, 0), (2 * S, S, 0))).unwrap();
    assert_eq!(h.ip, Point::gen(8 * S, 4 * S, 0));
    assert_eq!(h.norm, Point::gen(S, 0, 0));
    let g = r.hits(&ray((10 * S, 0, 0), (-S, 0, 0))).unwrap();
    assert_eq!(g.norm, Point::gen(-S, 0, 0));
}

#[test]
fn yz_rect_translation_keeps_miss() {
    let r = YZRect::gen(8 * S, -S, S, -S, S);
    let moved = YZRect::gen(8 * S, 0, 2 * S, S, 3 * S);
    assert!(r.hits(&ray((0, 0, 0), (S, S, 0))).is_none());
    assert!(moved.hits(&ray((0, S, 2 * S), (S, S, 0))).is_none());
}

#[test]
fn centered_rect_constructors() {
    let z = XYRect::gen_z_rect(3, 4 * S, 2 * S);
    assert_eq!((z.z, z.x0, z.x1, z.y0, z.y1), (3, -2 * S, 2 * S, -S, S));
    let y = XZRect::gen_y_rect(-3, 4 * S, 2 * S);
    assert_eq!((y.y, y.x0, y.x1, y.z0, y.z1), (-3, -2 * S, 2 * S, -S, S));
    let x = YZRect::gen_x_rect(5, 2 * S, 4 * S);
    assert_eq!((x.x, x.y0, x.y1, x.z0, x.z1), (5, -S, S, -2 * S, 2 * S));
    assert_eq!(z.get_pos(), Point::gen(0, 0, 3));
    assert_eq!(y.get_pos(), Point::gen(0, -3, 0));
    assert_eq!(x.get_pos(), Point::gen(5, 0, 0));
}

fn unit_box() -> AABox {
    AABox::gen(Point::gen(-S, -S, 4 * S), Point::gen(S, S, 6 * S))
}

fn on_face(b: &AABox, p: Point) -> bool {
    let (lo, hi) = (b.min_extent, b.max_extent);
    let inx = lo.x <= p.x && p.x <= hi.x;
    let iny = lo.y <= p.y && p.y <= hi.y;
    let inz = lo.z <= p.z && p.z <= hi.z;
    ((p.x == lo.x || p.x == hi.x) && iny && inz)
        || ((p.y == lo.y || p.y == hi.y) && inx && inz)
        || ((p.z == lo.z || p.z == hi.z) && inx && iny)
}

#[test]
fn box_faces_span_the_corners() {
    let b = unit_box();
    assert_eq!(b.left.x, -S);
    assert_eq!(b.right.x, S);
    assert_eq!(b.front.z, 4 * S);
    assert_eq!(b.back.z, 6 * S);
    assert_eq!(b.top.y, S);
    assert_eq!(b.bottom.y, -S);
    assert_eq!(b.get_pos(), Point::new());
}

#[test]
fn box_hit_lies_on_a_face() {
    let b = unit_box();
    let h = b.hits(&ray((0, 0, 0), (0, 0, S))).unwrap();
    assert_eq!(h.ip, Point::gen(0, 0, 4 * S));
    assert!(on_face(&b, h.ip));
    let g = b.hits(&ray((-3 * S, 0, 5 * S), (S, 0, 0))).unwrap();
    assert_eq!(g.ip, Point::gen(-S, 0, 5 * S));
    assert!(on_face(&b, g.ip));
    let k = b.hits(&ray((0, 3 * S, 5 * S), (S / 4, -S, 0))).unwrap();
    assert!(on_face(&b, k.ip));
}

#[test]
fn box_returns_first_face_in_order_not_nearest() {
    let b = unit_box();
    let h = b.hits(&ray((0, 0, 10 * S), (0, 0, -S))).unwrap();
    assert_eq!(h.ip, Point::gen(0, 0, 4 * S));
}

#[test]
fn box_miss() {
    let b = unit_box();
    assert!(b.hits(&ray((0, 0, 0), (S, 0, 0))).is_none());
}

#[test]
fn box_hit_carries_box_material() {
    let mut b = unit_box();
    b.material = Material::shiny_blue();
    let h = b.hits(&ray((0, 0, 0), (0, 0, S))).unwrap();
    assert_eq!(h.hit_mat, Material::shiny_blue());
}

#[test]
fn hittable_dispatches() {
    let s = Hittable::Sphere(sphere((0, 0, 8 * S), 4 * S));
    let r = Hittable::XYRect(XYRect::gen(4 * S, -2 * S, 2 * S, -2 * S, 2 * S));
    let b = Hittable::AABox(unit_box());
    let ry = ray((0, 0, 0), (0, 0, S));
    assert_eq!(s.hits(&ry).unwrap().ip, Point::gen(0, 0, 12 * S));
    assert_eq!(r.hits(&ry).unwrap().ip, Point::gen(0, 0, 4 * S));
    assert_eq!(b.hits(&ry).unwrap().ip, Point::gen(0, 0, 4 * S));
    assert_eq!(s.get_pos(), Point::gen(0, 0, 8 * S));
    assert_eq!(r.get_pos(), Point::gen(0, 0, 4 * S));
}

#[test]
fn sphere_short_direction_same_hit() {
    let s = sphere((0, 0, 8 * S), 4 * S);
    let h = s.hits(&ray((0, 0, 0), (0, 0, 1))).unwrap();
    assert_eq!(h.ip, Point::gen(0, 0, 12 * S));
}

#[test]
fn sphere_hits_land_on_the_surface() {
    let s = sphere((0, 0, 8 * S), 4 * S);
    let r = 4 * S as i128;
    for d in [(S, S, 8 * S), (1, 1, 8), (3, -2, 11), (-S / 3, S / 5, S), (7, 0, 19)] {
        let h = s.hits(&ray((0, 0, 0), d)).unwrap();
        let off = h.ip.minus(s.cen);
        let dist2 = off.dot(off);
        assert!((dist2 - r * r).abs() <= 8 * r, "{:?}", d);
    }
}

#[test]
fn box_faces_have_default_material() {
    let b = unit_box();
    for m in [b.left.material, b.right.material, b.front.material, b.back.material, b.top.material, b.bottom.material] {
        assert_eq!(m, Material::default());
    }
    let h = b.hits(&ray((0, 0, 0), (0, 0, S))).unwrap();
    let f = b.front.hits(&ray((0, 0, 0), (0, 0, S))).unwrap();
    assert_eq!(h, f);
}
