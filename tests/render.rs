use rusty_tracer::camera::Camera;
use rusty_tracer::fixed::SCALE;
use rusty_tracer::geometry::{Sphere, XYRect};
use rusty_tracer::hittable::Hittable;
use rusty_tracer::material::Material;
use rusty_tracer::ray::Ray;
use rusty_tracer::render::{closest_hit, pixel_ray, render};
use rusty_tracer::shading::PointLight;
use rusty_tracer::vmaths::Point;

const S: i64 = SCALE;

fn square_cam() -> Camera {
    Camera { pos: Point::new(), focl: S, w: 2 * S, h: 2 * S }
}

fn pixel(buf: &[u8], width: usize, row: usize, col: usize) -> (u8, u8, u8) {
    let i = 3 * (row * width + col);
    (buf[i], buf[i + 1], buf[i + 2])
}

#[test]
fn camera_new_values() {
    let c = Camera::new();
    assert_eq!(c.pos, Point::gen(0, 0, -30 * S));
    assert_eq!((c.focl, c.w, c.h), (S, 16 * S, 9 * S));
}

#[test]
fn pixel_rays_through_cell_centers() {
    let cam = square_cam();
    let r = pixel_ray(&cam, 4, 4, 0, 0);
    assert_eq!(r.origin, Point::new());
    assert_eq!(r.dir, Point::gen(-3 * S / 4, 3 * S / 4, S));
    let q = pixel_ray(&cam, 4, 4, 2, 1);
    assert_eq!(q.dir, Point::gen(-S / 4, -S / 4, S));
    let m = pixel_ray(&cam, 1, 1, 0, 0);
    assert_eq!(m.dir, Point::gen(0, 0, S));
}

#[test]
fn empty_scene_is_all_background() {
    let buf = render(&vec![], &vec![PointLight::new()], &Camera::new(), 5, 3);
    assert_eq!(buf.len(), 5 * 3 * 3);
    assert!(buf.iter().all(|&b| b == 0));
}

#[test]
fn closest_hit_prefers_nearer_point() {
    let near = Sphere { cen: Point::gen(0, 0, 5 * S), r: S, material: Material::shiny_blue() };
    let far = Sphere { cen: Point::gen(0, 0, 20 * S), r: S, material: Material::shiny_red() };
    let ray = Ray { origin: Point::new(), dir: Point::gen(0, 0, S) };
    let scene = vec![Hittable::Sphere(far), Hittable::Sphere(near)];
    let h = closest_hit(&scene, &ray, Point::new()).unwrap();
    assert_eq!(h.hit_mat, Material::shiny_blue());
    let flipped = vec![Hittable::Sphere(near), Hittable::Sphere(far)];
    let g = closest_hit(&flipped, &ray, Point::new()).unwrap();
    assert_eq!(g.ip, h.ip);
}

#[test]
fn closest_hit_none_when_nothing_hit() {
    let wall = XYRect::gen(4 * S, -S, S, -S, S);
    let ray = Ray { origin: Point::new(), dir: Point::gen(S, 0, 0) };
    assert!(closest_hit(&vec![Hittable::XYRect(wall)], &ray, Point::new()).is_none());
    assert!(closest_hit(&vec![], &ray, Point::new()).is_none());
}

#[test]
fn single_sphere_four_by_four() {
    let ball = Sphere { cen: Point::gen(0, 0, 8 * S), r: 4 * S, material: Material::shiny_red() };
    let scene = vec![Hittable::Sphere(ball)];
    let lights = vec![PointLight {
        pos: Point::gen(-10 * S, 10 * S, -10 * S),
        id: Point::gen(S, S, S),
        is: Point::gen(S, S, S),
    }];
    let buf = render(&scene, &lights, &square_cam(), 4, 4);
    assert_eq!(buf.len(), 48);
    let ambient_and_base = (165, 63, 63);
    for (row, col) in [(1, 1), (1, 2), (2, 1), (2, 2)] {
        let p = pixel(&buf, 4, row, col);
        assert_ne!(p, (0, 0, 0));
        assert_ne!(p, ambient_and_base);
        assert!(p.0 > p.1 && p.0 > p.2);
    }
    for (row, col) in [(0, 0), (0, 3), (3, 0), (3, 3)] {
        assert_eq!(pixel(&buf, 4, row, col), (0, 0, 0));
    }
}

#[test]
fn rectangle_in_front_of_sphere_wins() {
    let ball = Sphere { cen: Point::gen(0, 0, 8 * S), r: 4 * S, material: Material::shiny_red() };
    let mut wall = XYRect::gen(2 * S, -8 * S, 8 * S, -8 * S, 8 * S);
    wall.material = Material::shiny_green();
    let scene = vec![Hittable::Sphere(ball), Hittable::XYRect(wall)];
    let buf = render(&scene, &vec![], &square_cam(), 2, 2);
    for row in 0..2 {
        for col in 0..2 {
            assert_eq!(pixel(&buf, 2, row, col), (63, 165, 63));
        }
    }
}
