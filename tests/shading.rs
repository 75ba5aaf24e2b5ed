use rusty_tracer::camera::Camera;
use rusty_tracer::fixed::SCALE;
use rusty_tracer::hittable::HitInfo;
use rusty_tracer::material::Material;
use rusty_tracer::shading::{phong_single_src, Color, PointLight};
use rusty_tracer::vmaths::Point;

const S: i64 = SCALE;

fn cam_at(z: i64) -> Camera {
    Camera { pos: Point::gen(0, 0, z), focl: S, w: 2 * S, h: 2 * S }
}

fn matte(kd: i64, ks: i64) -> Material {
    Material { desc: "test", kd, ks, alpha: 50, base_color: Point::gen(13107, 13107, 13107) }
}

fn hit(norm: Point, m: Material) -> HitInfo {
    HitInfo { ip: Point::new(), norm, hit_mat: m }
}

fn white_light(pos: Point) -> PointLight {
    PointLight { pos, id: Point::gen(S, S, S), is: Point::gen(S, S, S) }
}

#[test]
fn no_lights_gives_ambient_plus_base() {
    let grey = Color { r: 63, g: 63, b: 63 };
    let a = phong_single_src(&hit(Point::gen(0, 0, -S), Material::default()), &cam_at(-10 * S), &vec![]);
    let b = phong_single_src(&hit(Point::gen(3, -4, 7), Material::default()), &cam_at(10 * S), &vec![]);
    assert_eq!(a, grey);
    assert_eq!(b, grey);
}

#[test]
fn no_lights_red_material() {
    let c = phong_single_src(&hit(Point::gen(0, 0, -S), Material::shiny_red()), &cam_at(-10 * S), &vec![]);
    assert_eq!(c, Color { r: 165, g: 63, b: 63 });
}

#[test]
fn diffuse_only_light_facing() {
    let lights = vec![white_light(Point::gen(0, 0, -10 * S))];
    let c = phong_single_src(&hit(Point::gen(0, 0, -S), matte(6554, 0)), &cam_at(-10 * S), &lights);
    assert_eq!(c, Color { r: 89, g: 89, b: 89 });
}

#[test]
fn diffuse_is_not_clamped_for_light_behind() {
    let lights = vec![white_light(Point::gen(0, 0, 10 * S))];
    let c = phong_single_src(&hit(Point::gen(0, 0, -S), matte(6554, 0)), &cam_at(-10 * S), &lights);
    assert_eq!(c, Color { r: 38, g: 38, b: 38 });
}

#[test]
fn bright_light_clamps_to_255() {
    let lights = vec![white_light(Point::gen(0, 0, -10 * S))];
    let c = phong_single_src(&hit(Point::gen(0, 0, -S), Material::default()), &cam_at(-10 * S), &lights);
    assert_eq!(c, Color { r: 255, g: 255, b: 255 });
}

#[test]
fn lights_accumulate() {
    let l = white_light(Point::gen(0, 0, -10 * S));
    let one = phong_single_src(&hit(Point::gen(0, 0, -S), matte(6554, 0)), &cam_at(-10 * S), &vec![l]);
    let two = phong_single_src(&hit(Point::gen(0, 0, -S), matte(6554, 0)), &cam_at(-10 * S), &vec![l, l]);
    assert_eq!(one, Color { r: 89, g: 89, b: 89 });
    assert_eq!(two, Color { r: 114, g: 114, b: 114 });
}

#[test]
fn very_dark_result_clamps_to_zero() {
    let lights = vec![white_light(Point::gen(0, 0, 10 * S))];
    let m = Material { desc: "dark", kd: 4 * S, ks: 0, alpha: 1, base_color: Point::new() };
    let c = phong_single_src(&hit(Point::gen(0, 0, -S), m), &cam_at(-10 * S), &lights);
    assert_eq!(c, Color { r: 0, g: 0, b: 0 });
}

#[test]
fn point_light_new_is_white_at_origin() {
    let l = PointLight::new();
    assert_eq!(l.pos, Point::new());
    assert_eq!(l.id, Point::gen(S, S, S));
    assert_eq!(l.is, Point::gen(S, S, S));
}

#[test]
fn material_presets() {
    let d = Material::default();
    assert_eq!((d.kd, d.ks, d.alpha), (19661, 32768, 50));
    assert_eq!(d.base_color, Point::gen(13107, 13107, 13107));
    assert_eq!(Material::shiny_red().base_color, Point::gen(39322, 13107, 13107));
    assert_eq!(Material::shiny_green().base_color, Point::gen(13107, 39322, 13107));
    assert_eq!(Material::shiny_blue().base_color, Point::gen(13107, 13107, 39322));
    assert_eq!(Material::shiny_blue().desc, "default shiny blue");
    assert_eq!(Material::shiny_red().desc, "default shiny red");
    assert_eq!(Material::shiny_green().desc, "default shiny green");
    assert_eq!(Material::default().desc, "default");
}
