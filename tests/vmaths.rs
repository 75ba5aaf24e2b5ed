use rusty_tracer::fixed::{isqrt, SCALE};
use rusty_tracer::ray::Ray;
use rusty_tracer::vmaths::{Mat3, Point};

const S: i64 = SCALE;

#[test]
fn isqrt_exact_and_rounded_down() {
    assert_eq!(isqrt(0), 0);
    assert_eq!(isqrt(1), 1);
    assert_eq!(isqrt(15), 3);
    assert_eq!(isqrt(16), 4);
    assert_eq!(isqrt(u128::MAX), u64::MAX as u128);
}

#[test]
fn point_constructors() {
    assert_eq!(Point::new(), Point { x: 0, y: 0, z: 0 });
    assert_eq!(Point::gen(1, -2, 3), Point { x: 1, y: -2, z: 3 });
}

#[test]
fn dot_is_exact() {
    let a = Point::gen(1, 2, 3);
    let b = Point::gen(4, -5, 6);
    assert_eq!(a.dot(b), 4 - 10 + 18);
}

#[test]
fn mag_of_three_four_five() {
    assert_eq!(Point::gen(3 * S, 4 * S, 0).mag(), 5 * S);
    assert_eq!(Point::gen(1, 1, 0).mag(), 1);
}

#[test]
fn unit_rounds_down() {
    let u = Point::gen(3 * S, 4 * S, 0).unit();
    assert_eq!(u, Point::gen(39321, 52428, 0));
    let w = Point::gen(-3 * S, 0, 4 * S).unit();
    assert_eq!(w, Point::gen(-39322, 0, 52428));
}

#[test]
fn unit_of_zero_is_zero() {
    assert_eq!(Point::new().unit(), Point::new());
}

#[test]
fn unit_has_length_about_one() {
    let u = Point::gen(S, 2 * S, 2 * S).unit();
    assert_eq!(u, Point::gen(21845, 43690, 43690));
    let n = u.dot(u);
    let s2 = (S as i128) * (S as i128);
    assert!(n >= s2 - 6 * S as i128 && n <= s2 + 8 * S as i128 + 3);
}

#[test]
fn cross_is_right_handed() {
    let x = Point::gen(S, 0, 0);
    let y = Point::gen(0, S, 0);
    assert_eq!(x.cross(y), Point::gen(0, 0, S));
    assert_eq!(y.cross(x), Point::gen(0, 0, -S));
    assert_eq!(Point::gen(0, 0, S).cross(x), y);
}

#[test]
fn point_arithmetic() {
    let a = Point::gen(1, 2, 3);
    let b = Point::gen(10, 20, 30);
    assert_eq!(a.plus(b), Point::gen(11, 22, 33));
    assert_eq!(a.minus(b), Point::gen(-9, -18, -27));
    assert_eq!(a.negated(), Point::gen(-1, -2, -3));
    assert_eq!(Point::gen(2 * S, -S, 3).scaled(S / 2), Point::gen(S, -S / 2, 1));
}

#[test]
fn rotation_about_x_quarter_turn() {
    let m = Mat3::gen_rotx(0, S);
    assert_eq!(m.mul_vec(Point::gen(0, S, 0)), Point::gen(0, 0, S));
    assert_eq!(m.mul_vec(Point::gen(5, 0, 0)), Point::gen(5, 0, 0));
}

#[test]
fn rotation_about_y_quarter_turn() {
    let m = Mat3::gen_roty(0, S);
    assert_eq!(m.mul_vec(Point::gen(S, 0, 0)), Point::gen(0, 0, -S));
    assert_eq!(m.mul_vec(Point::gen(0, 0, S)), Point::gen(S, 0, 0));
}

#[test]
fn rotation_identity_angle() {
    let m = Mat3::gen_roty(S, 0);
    let v = Point::gen(3 * S, -7, 11 * S);
    assert_eq!(m.mul_vec(v), v);
}

#[test]
fn ray_at_zero_is_origin() {
    let r = Ray { origin: Point::gen(1, 2, 3), dir: Point::gen(S, -S, 7) };
    assert_eq!(r.at(0), r.origin);
}

#[test]
fn ray_at_two() {
    let r = Ray { origin: Point::gen(1, 2, 3), dir: Point::gen(S, -S, 0) };
    assert_eq!(r.at(2 * S), Point::gen(1 + 2 * S, 2 - 2 * S, 3));
    assert_eq!(r.at(-S), Point::gen(1 - S, 2 + S, 3));
}

#[test]
fn unit_of_very_short_vector_has_length_one() {
    let u = Point::gen(1, 1, 0).unit();
    assert_eq!(u, Point::gen(46341, 46341, 0));
    let n = u.dot(u);
    let s2 = (S as i128) * (S as i128);
    assert!(n >= s2 - 6 * S as i128 && n <= s2 + 8 * S as i128 + 3);
    let w = Point::gen(0, 0, -1).unit();
    assert_eq!(w, Point::gen(0, 0, -S));
}

#[test]
fn unit_length_bound_over_many_vectors() {
    let s2 = (S as i128) * (S as i128);
    for x in -3..=3i64 {
        for y in -3..=3i64 {
            for z in [-7i64, -1, 0, 2, 5, 1000, 123456789] {
                let v = Point::gen(x * 17, y * 5, z);
                if v == Point::new() {
                    continue;
                }
                let u = v.unit();
                let n = u.dot(u);
                assert!(n >= s2 - 6 * S as i128 && n <= s2 + 8 * S as i128 + 3, "{:?}", v);
            }
        }
    }
}
