//! Phong shading of a hit over any number of point lights.
use vstd::prelude::*;

use crate::camera::Camera;
use crate::fixed::{SCALE, fdiv, lemma_div_bound, lemma_mul_bound};
use crate::hittable::{HitInfo, hit_in_range};
use crate::material::{COEF_MAX, is_color};
use crate::vmaths::{LIMIT, Point, bounded, dot_of, lemma_bounded_sum, lemma_dot_bound, minus_of, unit_of};

verus! {

/// Ambient intensity, 0.05 in fixed point.
pub const AMBIENT: i64 = 3277;

/// Most lights that one shading call accepts.
pub const MAX_LIGHTS: usize = 0x10_0000;

/// A point light with diffuse and specular intensities per channel.
#[derive(Clone, Copy, Debug, PartialEq, Eq, Structural)]
pub struct PointLight {
    pub pos: Point,
    pub id: Point,
    pub is: Point,
}

/// An RGB pixel.
#[derive(Clone, Copy, Debug, Default, PartialEq, Eq, Structural)]
pub struct Color {
    pub r: u8,
    pub g: u8,
    pub b: u8,
}

/// Fixed-point power `x^k`, each product rounded down.
pub open spec fn fpow(x: int, k: nat) -> int
    decreases k,
{
    if k == 0 {
        SCALE as int
    } else {
        fpow(x, (k - 1) as nat) * x / SCALE as int
    }
}

/// `x` limited to `[lo, hi]`.
pub open spec fn clamp(x: int, lo: int, hi: int) -> int {
    if x < lo {
        lo
    } else if x > hi {
        hi
    } else {
        x
    }
}

/// The diffuse plus specular contribution of one light, per channel.
///
/// With `n`, `l` and `v` the unit normal and the unit vectors to the light and to the
/// camera, `r = 2 (l.n) n - l`; diffuse is `kd (l.n) id` (not clamped) and specular is
/// `ks clamp(r.v, 0, 1)^alpha is`.
pub open spec fn light_term(h: HitInfo, cam_pos: Point, lt: PointLight) -> (int, int, int) {
    let n = unit_of(h.norm);
    let l = unit_of(minus_of(lt.pos, h.ip));
    let v = unit_of(minus_of(cam_pos, h.ip));
    let ln = dot_of(l, n) / SCALE as int;
    let r = Point {
        x: (2 * ln * n.x / SCALE as int - l.x) as i64,
        y: (2 * ln * n.y / SCALE as int - l.y) as i64,
        z: (2 * ln * n.z / SCALE as int - l.z) as i64,
    };
    let rv = dot_of(r, v) / SCALE as int;
    let sp = fpow(clamp(rv, 0, SCALE as int), h.hit_mat.alpha as nat);
    let kd = h.hit_mat.kd as int;
    let ks = h.hit_mat.ks as int;
    let ss = SCALE as int * SCALE as int;
    (
        kd * ln * lt.id.x / ss + ks * sp * lt.is.x / ss,
        kd * ln * lt.id.y / ss + ks * sp * lt.is.y / ss,
        kd * ln * lt.id.z / ss + ks * sp * lt.is.z / ss,
    )
}

/// The contributions of all the lights, summed per channel.
pub open spec fn lights_sum(h: HitInfo, cam_pos: Point, lights: Seq<PointLight>) -> (int, int, int)
    decreases lights.len(),
{
    if lights.len() == 0 {
        (0, 0, 0)
    } else {
        let s = lights_sum(h, cam_pos, lights.drop_last());
        let t = light_term(h, cam_pos, lights.last());
        (s.0 + t.0, s.1 + t.1, s.2 + t.2)
    }
}

/// A fixed-point channel as a byte: times 255, rounded down, clamped to `[0, 255]`.
pub open spec fn to_byte(c: int) -> u8 {
    clamp(c * 255 / SCALE as int, 0, 255) as u8
}

/// Ambient plus base color plus all the light contributions, as a pixel.
pub open spec fn shade_of(h: HitInfo, cam_pos: Point, lights: Seq<PointLight>) -> Color {
    let s = lights_sum(h, cam_pos, lights);
    let base = h.hit_mat.base_color;
    Color {
        r: to_byte(AMBIENT + base.x + s.0),
        g: to_byte(AMBIENT + base.y + s.1),
        b: to_byte(AMBIENT + base.z + s.2),
    }
}

impl PointLight {
    /// Position within range and intensities within the shading range.
    pub open spec fn wf(self) -> bool {
        self.pos.in_world() && is_color(self.id) && is_color(self.is)
    }

    /// A white light at the origin.
    pub fn new() -> (r: PointLight)
        ensures
            r == (PointLight {
                pos: Point { x: 0, y: 0, z: 0 },
                id: Point { x: SCALE, y: SCALE, z: SCALE },
                is: Point { x: SCALE, y: SCALE, z: SCALE },
            }),
            r.wf(),
    {
        PointLight {
            pos: Point { x: 0, y: 0, z: 0 },
            id: Point { x: SCALE, y: SCALE, z: SCALE },
            is: Point { x: SCALE, y: SCALE, z: SCALE },
        }
    }
}

/// `x^k` in fixed point, for `x` in `[0, SCALE]`.
fn fpow_exec(x: i64, k: u32) -> (r: i64)
    requires
        0 <= x <= SCALE,
    ensures
        r == fpow(x as int, k as nat),
        0 <= r <= SCALE,
{
    let mut y: i64 = SCALE;
    let mut i: u32 = 0;
    while i < k
        invariant
            0 <= x <= SCALE,
            i <= k,
            y == fpow(x as int, i as nat),
            0 <= y <= SCALE,
        decreases k - i,
    {
        proof {
            lemma_mul_bound(y as int, x as int, SCALE as int, SCALE as int);
            assert(0 <= y * x) by (nonlinear_arith)
                requires
                    0 <= y,
                    0 <= x,
            ;
            assert(y * x <= SCALE * SCALE) by (nonlinear_arith)
                requires
                    0 <= y <= SCALE,
                    0 <= x <= SCALE,
            ;
            lemma_div_bound(y * x, SCALE as int, SCALE as int);
            crate::fixed::lemma_div_range(y * x, SCALE as int);
        }
        y = fdiv((y as i128) * (x as i128), SCALE as i128) as i64;
        i = i + 1;
    }
    y
}

/// A fixed-point channel as a byte, clamped.
fn to_byte_exec(c: i64) -> (r: u8)
    requires
        -0x100_0000_0000_0000 <= c <= 0x100_0000_0000_0000,
    ensures
        r == to_byte(c as int),
{
    let v = fdiv((c as i128) * 255, SCALE as i128);
    if v < 0 {
        0
    } else if v > 255 {
        255
    } else {
        v as u8
    }
}

/// Bound on one channel of one light's contribution.
pub const TERM_MAX: i64 = 0x400_0000;

/// The contribution of one light, as `light_term`.
fn light_term_exec(h: &HitInfo, cam_pos: Point, lt: &PointLight) -> (r: (i64, i64, i64))
    requires
        hit_in_range(*h),
        cam_pos.in_world(),
        lt.wf(),
    ensures
        (r.0 as int, r.1 as int, r.2 as int) == light_term(*h, cam_pos, *lt),
        -TERM_MAX <= r.0 <= TERM_MAX,
        -TERM_MAX <= r.1 <= TERM_MAX,
        -TERM_MAX <= r.2 <= TERM_MAX,
{
    let ghost s: int = SCALE as int;
    proof {
        lemma_bounded_sum(lt.pos, h.ip, LIMIT as int, 2 * LIMIT);
        lemma_bounded_sum(cam_pos, h.ip, LIMIT as int, 2 * LIMIT);
    }
    let n = h.norm.unit();
    let to_light = lt.pos.minus(h.ip);
    let l = to_light.unit();
    let to_cam = cam_pos.minus(h.ip);
    let v = to_cam.unit();
    let ln_raw = l.dot(n);
    proof {
        lemma_dot_bound(l, n, s, s);
        lemma_div_bound(ln_raw as int, s, 3 * s);
    }
    let ln = fdiv(ln_raw, SCALE as i128);
    proof {
        lemma_mul_bound(ln as int, n.x as int, 3 * s, s);
        lemma_mul_bound(ln as int, n.y as int, 3 * s, s);
        lemma_mul_bound(ln as int, n.z as int, 3 * s, s);
        lemma_div_bound(2 * (ln * n.x), s, 6 * s);
        lemma_div_bound(2 * (ln * n.y), s, 6 * s);
        lemma_div_bound(2 * (ln * n.z), s, 6 * s);
        assert(2 * ln * n.x == 2 * (ln * n.x)) by (nonlinear_arith);
        assert(2 * ln * n.y == 2 * (ln * n.y)) by (nonlinear_arith);
        assert(2 * ln * n.z == 2 * (ln * n.z)) by (nonlinear_arith);
    }
    let rx = fdiv(2 * ln * (n.x as i128), SCALE as i128) - l.x as i128;
    let ry = fdiv(2 * ln * (n.y as i128), SCALE as i128) - l.y as i128;
    let rz = fdiv(2 * ln * (n.z as i128), SCALE as i128) - l.z as i128;
    let r = Point { x: rx as i64, y: ry as i64, z: rz as i64 };
    let rv_raw = r.dot(v);
    proof {
        lemma_dot_bound(r, v, 7 * s, s);
        lemma_div_bound(rv_raw as int, s, 21 * s);
    }
    let rv = fdiv(rv_raw, SCALE as i128);
    let c = if rv < 0 {
        0
    } else if rv > SCALE as i128 {
        SCALE
    } else {
        rv as i64
    };
    let sp = fpow_exec(c, h.hit_mat.alpha);
    let m = h.hit_mat;
    let x = channel(m.kd, ln, lt.id.x, m.ks, sp, lt.is.x);
    let y = channel(m.kd, ln, lt.id.y, m.ks, sp, lt.is.y);
    let z = channel(m.kd, ln, lt.id.z, m.ks, sp, lt.is.z);
    (x, y, z)
}

/// One channel `kd ln id / S^2 + ks sp is / S^2` of a light's contribution.
fn channel(kd: i64, ln: i128, id: i64, ks: i64, sp: i64, is: i64) -> (r: i64)
    requires
        0 <= kd <= COEF_MAX,
        0 <= ks <= COEF_MAX,
        0 <= id <= COEF_MAX,
        0 <= is <= COEF_MAX,
        -3 * SCALE <= ln <= 3 * SCALE,
        0 <= sp <= SCALE,
    ensures
        r == kd * ln * id / (SCALE as int * SCALE as int) + ks * sp * is / (SCALE as int * SCALE as int),
        -TERM_MAX <= r <= TERM_MAX,
{
    let ghost ss: int = SCALE as int * SCALE as int;
    proof {
        lemma_mul_bound(kd as int, ln as int, COEF_MAX as int, 3 * SCALE);
        lemma_mul_bound(kd * ln, id as int, COEF_MAX * (3 * SCALE), COEF_MAX as int);
        lemma_mul_bound(ks as int, sp as int, COEF_MAX as int, SCALE as int);
        lemma_mul_bound(ks * sp, is as int, COEF_MAX * SCALE, COEF_MAX as int);
        lemma_div_bound(kd * ln * id, ss, 0x300_0000);
        lemma_div_bound(ks * sp * is, ss, 0x100_0000);
    }
    let d = fdiv((kd as i128) * ln * (id as i128), (SCALE as i128) * (SCALE as i128));
    let sv = fdiv((ks as i128) * (sp as i128) * (is as i128), (SCALE as i128) * (SCALE as i128));
    (d + sv) as i64
}

/// The Phong color of a hit seen from the camera: ambient plus the material's base color plus,
/// for each light, its diffuse and specular contributions; each channel is converted to a
/// byte and clamped. With no lights the result is ambient plus base color alone.
pub fn phong_single_src(hit_rec: &HitInfo, cam: &Camera, lights: &Vec<PointLight>) -> (r: Color)
    requires
        hit_in_range(*hit_rec),
        cam.wf(),
        lights.len() <= MAX_LIGHTS,
        forall|i: int| 0 <= i < lights.len() ==> (#[trigger] lights[i]).wf(),
    ensures
        r == shade_of(*hit_rec, cam.pos, lights@),
        lights.len() == 0 ==> r == (Color {
            r: to_byte(AMBIENT + hit_rec.hit_mat.base_color.x),
            g: to_byte(AMBIENT + hit_rec.hit_mat.base_color.y),
            b: to_byte(AMBIENT + hit_rec.hit_mat.base_color.z),
        }),
{
    let cam_pos = cam.pos;
    let mut ax: i64 = 0;
    let mut ay: i64 = 0;
    let mut az: i64 = 0;
    let mut i: usize = 0;
    while i < lights.len()
        invariant
            i <= lights.len(),
            lights.len() <= MAX_LIGHTS,
            hit_in_range(*hit_rec),
            cam_pos.in_world(),
            forall|j: int| 0 <= j < lights.len() ==> (#[trigger] lights[j]).wf(),
            (ax as int, ay as int, az as int) == lights_sum(*hit_rec, cam_pos, lights@.subrange(0, i as int)),
            -(i as int) * TERM_MAX <= ax <= (i as int) * TERM_MAX,
            -(i as int) * TERM_MAX <= ay <= (i as int) * TERM_MAX,
            -(i as int) * TERM_MAX <= az <= (i as int) * TERM_MAX,
        decreases lights.len() - i,
    {
        let t = light_term_exec(hit_rec, cam_pos, &lights[i]);
        proof {
            assert(lights@.subrange(0, i + 1).drop_last() =~= lights@.subrange(0, i as int));
            assert(lights@.subrange(0, i + 1).last() == lights@[i as int]);
            assert((i as int) * TERM_MAX <= MAX_LIGHTS * TERM_MAX) by (nonlinear_arith)
                requires
                    i <= MAX_LIGHTS,
            ;
            assert((i as int + 1) * TERM_MAX == (i as int) * TERM_MAX + TERM_MAX) by (nonlinear_arith);
        }
        ax = ax + t.0;
        ay = ay + t.1;
        az = az + t.2;
        i = i + 1;
    }
    assert(lights@.subrange(0, lights.len() as int) =~= lights@);
    proof {
        assert((i as int) * TERM_MAX <= MAX_LIGHTS * TERM_MAX) by (nonlinear_arith)
            requires
                i <= MAX_LIGHTS,
        ;
    }
    let base = hit_rec.hit_mat.base_color;
    Color {
        r: to_byte_exec(AMBIENT + base.x + ax),
        g: to_byte_exec(AMBIENT + base.y + ay),
        b: to_byte_exec(AMBIENT + base.z + az),
    }
}

} // verus!
