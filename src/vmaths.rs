//! Three-component vectors and 3x3 matrices over fixed-point integers.
//!
//! A coordinate is an `i64` counting `1 / SCALE` world units.
use vstd::prelude::*;

use crate::fixed::{SCALE, fdiv, isqrt, isqrt_of, lemma_isqrt_of, lemma_mul_bound, lemma_root_below};

verus! {

/// Largest coordinate magnitude of a point that the scene may hold.
pub const LIMIT: i64 = 0x1000_0000;

/// A position, a direction or a color, in fixed-point units.
#[derive(Clone, Copy, Debug, Default, PartialEq, Eq, Structural)]
pub struct Point {
    pub x: i64,
    pub y: i64,
    pub z: i64,
}

/// A point used as a direction or a color.
pub type Vec3 = Point;

/// Exact dot product of two points.
pub open spec fn dot_of(a: Point, b: Point) -> int {
    a.x * b.x + a.y * b.y + a.z * b.z
}

/// Exact squared length.
pub open spec fn norm2(a: Point) -> int {
    dot_of(a, a)
}

/// Every component of `a` lies in `[-k, k]`.
pub open spec fn bounded(a: Point, k: int) -> bool {
    -k <= a.x <= k && -k <= a.y <= k && -k <= a.z <= k
}

/// Fixed-point length: the integer square root of the squared length.
pub open spec fn mag_of(a: Point) -> int {
    isqrt_of(norm2(a) as nat) as int
}

/// Length in units of `1 / SCALE^2` world units: the integer square root of
/// `|a|^2 * SCALE^2`, which is the length of `a` taken `SCALE` times more finely than `mag_of`.
pub open spec fn fine_mag_of(a: Point) -> int {
    isqrt_of((norm2(a) * (SCALE * SCALE)) as nat) as int
}

/// The point `a` scaled to length `SCALE`, rounding each component down; zero stays zero.
pub open spec fn unit_of(a: Point) -> Point {
    let m = fine_mag_of(a);
    if m == 0 {
        Point { x: 0, y: 0, z: 0 }
    } else {
        Point {
            x: (a.x * SCALE * SCALE / m) as i64,
            y: (a.y * SCALE * SCALE / m) as i64,
            z: (a.z * SCALE * SCALE / m) as i64,
        }
    }
}

/// Componentwise sum.
pub open spec fn plus_of(a: Point, b: Point) -> Point {
    Point { x: (a.x + b.x) as i64, y: (a.y + b.y) as i64, z: (a.z + b.z) as i64 }
}

/// Componentwise difference.
pub open spec fn minus_of(a: Point, b: Point) -> Point {
    Point { x: (a.x - b.x) as i64, y: (a.y - b.y) as i64, z: (a.z - b.z) as i64 }
}

/// Each component times the fixed-point factor `s`, rounded down.
pub open spec fn scaled_of(a: Point, s: int) -> Point {
    Point {
        x: (a.x * s / SCALE as int) as i64,
        y: (a.y * s / SCALE as int) as i64,
        z: (a.z * s / SCALE as int) as i64,
    }
}

/// Fixed-point cross product, right-handed, each component rounded down.
pub open spec fn cross_of(a: Point, b: Point) -> Point {
    Point {
        x: ((a.y * b.z - a.z * b.y) / SCALE as int) as i64,
        y: ((a.z * b.x - a.x * b.z) / SCALE as int) as i64,
        z: ((a.x * b.y - a.y * b.x) / SCALE as int) as i64,
    }
}

/// A componentwise sum or difference of two bounded points is bounded by the sum of the bounds.
pub proof fn lemma_bounded_sum(a: Point, b: Point, ka: int, kb: int)
    requires
        bounded(a, ka),
        bounded(b, kb),
    ensures
        -(ka + kb) <= a.x + b.x <= ka + kb,
        -(ka + kb) <= a.y + b.y <= ka + kb,
        -(ka + kb) <= a.z + b.z <= ka + kb,
        -(ka + kb) <= a.x - b.x <= ka + kb,
        -(ka + kb) <= a.y - b.y <= ka + kb,
        -(ka + kb) <= a.z - b.z <= ka + kb,
{
}

/// A dot product of bounded points is bounded.
pub proof fn lemma_dot_bound(a: Point, b: Point, ka: int, kb: int)
    requires
        bounded(a, ka),
        bounded(b, kb),
    ensures
        -3 * (ka * kb) <= dot_of(a, b) <= 3 * (ka * kb),
{
    lemma_mul_bound(a.x as int, b.x as int, ka, kb);
    lemma_mul_bound(a.y as int, b.y as int, ka, kb);
    lemma_mul_bound(a.z as int, b.z as int, ka, kb);
}

/// A fixed-point scaling of bounded factors stays well inside the `i64` range.
pub proof fn lemma_mul_bound_scaled(a: Point, s: int)
    requires
        bounded(a, 0x40_0000_0000),
        -0x40_0000_0000 <= s <= 0x40_0000_0000,
    ensures
        bounded(scaled_of(a, s), 0x1000_0000_0000_0000),
{
    lemma_mul_bound(a.x as int, s, 0x40_0000_0000, 0x40_0000_0000);
    lemma_mul_bound(a.y as int, s, 0x40_0000_0000, 0x40_0000_0000);
    lemma_mul_bound(a.z as int, s, 0x40_0000_0000, 0x40_0000_0000);
    crate::fixed::lemma_div_bound(a.x * s, SCALE as int, 0x1000_0000_0000_0000);
    crate::fixed::lemma_div_bound(a.y * s, SCALE as int, 0x1000_0000_0000_0000);
    crate::fixed::lemma_div_bound(a.z * s, SCALE as int, 0x1000_0000_0000_0000);
}

/// A squared length is never negative.
pub proof fn lemma_norm2_nonneg(a: Point)
    ensures
        norm2(a) >= 0,
        norm2(a) == 0 <==> (a.x == 0 && a.y == 0 && a.z == 0),
{
    assert(a.x * a.x >= 0 && a.y * a.y >= 0 && a.z * a.z >= 0) by (nonlinear_arith);
    if a.x != 0 {
        assert(a.x * a.x > 0) by (nonlinear_arith)
            requires
                a.x != 0,
        ;
    }
    if a.y != 0 {
        assert(a.y * a.y > 0) by (nonlinear_arith)
            requires
                a.y != 0,
        ;
    }
    if a.z != 0 {
        assert(a.z * a.z > 0) by (nonlinear_arith)
            requires
                a.z != 0,
        ;
    }
}

impl Point {
    /// Within the coordinate range of the scene.
    pub open spec fn in_world(self) -> bool {
        bounded(self, LIMIT as int)
    }

    /// The origin.
    pub fn new() -> (r: Point)
        ensures
            r == (Point { x: 0, y: 0, z: 0 }),
    {
        Point { x: 0, y: 0, z: 0 }
    }

    /// The point with the given components.
    pub fn gen(a: i64, b: i64, c: i64) -> (r: Point)
        ensures
            r == (Point { x: a, y: b, z: c }),
    {
        Point { x: a, y: b, z: c }
    }

    /// Exact dot product, in units of `1 / (SCALE * SCALE)`.
    pub fn dot(&self, vec: Point) -> (r: i128)
        requires
            bounded(*self, 0x4000_0000_0000_0000),
            bounded(vec, 0x4000_0000_0000_0000),
        ensures
            r == dot_of(*self, vec),
    {
        proof {
            lemma_dot_bound(*self, vec, 0x4000_0000_0000_0000, 0x4000_0000_0000_0000);
            lemma_mul_bound(self.x as int, vec.x as int, 0x4000_0000_0000_0000, 0x4000_0000_0000_0000);
            lemma_mul_bound(self.y as int, vec.y as int, 0x4000_0000_0000_0000, 0x4000_0000_0000_0000);
            lemma_mul_bound(self.z as int, vec.z as int, 0x4000_0000_0000_0000, 0x4000_0000_0000_0000);
        }
        (self.x as i128) * (vec.x as i128) + (self.y as i128) * (vec.y as i128) + (self.z as i128)
            * (vec.z as i128)
    }

    /// Length in fixed-point units, rounded down.
    pub fn mag(&self) -> (r: i64)
        requires
            bounded(*self, 0x4000_0000_0000_0000),
        ensures
            r == mag_of(*self),
            r >= 0,
            r * r <= norm2(*self) < (r + 1) * (r + 1),
    {
        let n = self.dot(*self);
        proof {
            lemma_norm2_nonneg(*self);
            lemma_dot_bound(*self, *self, 0x4000_0000_0000_0000, 0x4000_0000_0000_0000);
        }
        let r = isqrt(n as u128);
        proof {
            lemma_isqrt_of(n as nat);
            lemma_root_below(r as int, 0x8000_0000_0000_0000);
        }
        r as i64
    }

    /// The direction of this vector at length `SCALE`; the zero vector is returned unchanged.
    pub fn unit(&self) -> (r: Point)
        requires
            bounded(*self, 0x4000_0000_0000),
        ensures
            r == unit_of(*self),
            bounded(r, SCALE as int),
            norm2(*self) == 0 <==> fine_mag_of(*self) == 0,
    {
        let ghost s2: int = SCALE * SCALE;
        let n = self.dot(*self);
        proof {
            lemma_norm2_nonneg(*self);
            lemma_dot_bound(*self, *self, 0x4000_0000_0000, 0x4000_0000_0000);
            lemma_mul_bound(n as int, s2, 0x3000_0000_0000_0000_0000_0000, 0x1_0000_0000);
            assert(n * s2 >= 0) by (nonlinear_arith)
                requires
                    n >= 0,
                    s2 >= 0,
            ;
        }
        let nn = n * ((SCALE as i128) * (SCALE as i128));
        let m = isqrt(nn as u128);
        proof {
            lemma_isqrt_of(nn as nat);
            lemma_root_below(m as int, 0x8000_0000_0000_0000);
        }
        if m == 0 {
            assert(nn < 1) by (nonlinear_arith)
                requires
                    m == 0,
                    nn < (m + 1) * (m + 1),
            ;
            assert(n == 0) by (nonlinear_arith)
                requires
                    nn == n * s2,
                    nn < 1,
                    n >= 0,
                    s2 > 0,
            ;
            return Point { x: 0, y: 0, z: 0 };
        }
        assert(n != 0) by (nonlinear_arith)
            requires
                nn == n * s2,
                m > 0,
                m * m <= nn,
        ;
        let x = self.scale_div(self.x, m as i128, n);
        let y = self.scale_div(self.y, m as i128, n);
        let z = self.scale_div(self.z, m as i128, n);
        Point { x, y, z }
    }

    /// `c * SCALE^2 / m` rounded down, for a component `c` of this vector of fine length `m`.
    fn scale_div(&self, c: i64, m: i128, n: i128) -> (r: i64)
        requires
            bounded(*self, 0x4000_0000_0000),
            n == norm2(*self),
            m > 0,
            m * m <= n * (SCALE * SCALE) < (m + 1) * (m + 1),
            c == self.x || c == self.y || c == self.z,
        ensures
            r == c * SCALE * SCALE / (m as int),
            -SCALE <= r <= SCALE,
    {
        let ghost s: int = SCALE as int;
        proof {
            assert(c * c <= n) by (nonlinear_arith)
                requires
                    c == self.x || c == self.y || c == self.z,
                    n == self.x * self.x + self.y * self.y + self.z * self.z,
            ;
            assert((c * s) * (c * s) <= n * (s * s)) by (nonlinear_arith)
                requires
                    c * c <= n,
            ;
            assert(-m <= c * s <= m) by (nonlinear_arith)
                requires
                    (c * s) * (c * s) < (m + 1) * (m + 1),
                    m > 0,
            ;
            lemma_mul_bound(c * s, s, m as int, s);
            assert(m * s == s * m) by (nonlinear_arith);
            crate::fixed::lemma_div_bound(c * s * s, m as int, s);
            lemma_mul_bound(c as int, s * s, 0x4000_0000_0000, 0x1_0000_0000);
            assert(c * s * s == c * (s * s)) by (nonlinear_arith);
        }
        fdiv((c as i128) * ((SCALE as i128) * (SCALE as i128)), m) as i64
    }

    /// Fixed-point cross product, right-handed.
    pub fn cross(&self, vec: Point) -> (r: Point)
        requires
            bounded(*self, 0x40_0000_0000),
            bounded(vec, 0x40_0000_0000),
        ensures
            r == cross_of(*self, vec),
    {
        let ghost k: int = 0x40_0000_0000;
        proof {
            lemma_mul_bound(self.y as int, vec.z as int, k, k);
            lemma_mul_bound(self.z as int, vec.y as int, k, k);
            lemma_mul_bound(self.z as int, vec.x as int, k, k);
            lemma_mul_bound(self.x as int, vec.z as int, k, k);
            lemma_mul_bound(self.x as int, vec.y as int, k, k);
            lemma_mul_bound(self.y as int, vec.x as int, k, k);
        }
        let a = (self.y as i128) * (vec.z as i128) - (self.z as i128) * (vec.y as i128);
        let b = (self.z as i128) * (vec.x as i128) - (self.x as i128) * (vec.z as i128);
        let c = (self.x as i128) * (vec.y as i128) - (self.y as i128) * (vec.x as i128);
        let qa = fdiv(a, SCALE as i128);
        let qb = fdiv(b, SCALE as i128);
        let qc = fdiv(c, SCALE as i128);
        proof {
            crate::fixed::lemma_div_bound(a as int, SCALE as int, 0x2000_0000_0000_0000);
            crate::fixed::lemma_div_bound(b as int, SCALE as int, 0x2000_0000_0000_0000);
            crate::fixed::lemma_div_bound(c as int, SCALE as int, 0x2000_0000_0000_0000);
        }
        Point { x: qa as i64, y: qb as i64, z: qc as i64 }
    }

    /// Componentwise sum.
    pub fn plus(&self, vec: Point) -> (r: Point)
        requires
            bounded(*self, 0x3fff_ffff_ffff_ffff),
            bounded(vec, 0x3fff_ffff_ffff_ffff),
        ensures
            r == plus_of(*self, vec),
    {
        Point { x: self.x + vec.x, y: self.y + vec.y, z: self.z + vec.z }
    }

    /// Componentwise difference.
    pub fn minus(&self, vec: Point) -> (r: Point)
        requires
            bounded(*self, 0x3fff_ffff_ffff_ffff),
            bounded(vec, 0x3fff_ffff_ffff_ffff),
        ensures
            r == minus_of(*self, vec),
    {
        Point { x: self.x - vec.x, y: self.y - vec.y, z: self.z - vec.z }
    }

    /// The opposite vector.
    pub fn negated(&self) -> (r: Point)
        requires
            bounded(*self, 0x4000_0000_0000_0000),
        ensures
            r == (Point { x: -self.x as i64, y: -self.y as i64, z: -self.z as i64 }),
    {
        Point { x: -self.x, y: -self.y, z: -self.z }
    }

    /// Each component times the fixed-point factor `s`, rounded down.
    pub fn scaled(&self, s: i64) -> (r: Point)
        requires
            bounded(*self, 0x40_0000_0000),
            -0x40_0000_0000 <= s <= 0x40_0000_0000,
        ensures
            r == scaled_of(*self, s as int),
    {
        proof {
            lemma_mul_bound(self.x as int, s as int, 0x40_0000_0000, 0x40_0000_0000);
            lemma_mul_bound(self.y as int, s as int, 0x40_0000_0000, 0x40_0000_0000);
            lemma_mul_bound(self.z as int, s as int, 0x40_0000_0000, 0x40_0000_0000);
            crate::fixed::lemma_div_bound(self.x * s, SCALE as int, 0x1000_0000_0000_0000);
            crate::fixed::lemma_div_bound(self.y * s, SCALE as int, 0x1000_0000_0000_0000);
            crate::fixed::lemma_div_bound(self.z * s, SCALE as int, 0x1000_0000_0000_0000);
        }
        let x = fdiv((self.x as i128) * (s as i128), SCALE as i128);
        let y = fdiv((self.y as i128) * (s as i128), SCALE as i128);
        let z = fdiv((self.z as i128) * (s as i128), SCALE as i128);
        Point { x: x as i64, y: y as i64, z: z as i64 }
    }
}

/// A 3x3 matrix given by its rows.
#[derive(Clone, Copy, Debug, Default, PartialEq, Eq, Structural)]
pub struct Mat3 {
    pub x: Point,
    pub y: Point,
    pub z: Point,
}

/// Row-major product: component `i` is row `i` dotted with `v`, in fixed point, rounded down.
pub open spec fn mat_mul_of(m: Mat3, v: Point) -> Point {
    Point {
        x: (dot_of(m.x, v) / SCALE as int) as i64,
        y: (dot_of(m.y, v) / SCALE as int) as i64,
        z: (dot_of(m.z, v) / SCALE as int) as i64,
    }
}

/// Products that make a rotation's rows orthogonal.
proof fn lemma_rotation_facts(c: int, s: int)
    ensures
        c * s + (-s) * c == 0,
        (-s) * c + c * s == 0,
        c * (-s) + s * c == 0,
        (-s) * (-s) == s * s,
        c * 0 == 0 && s * 0 == 0 && (-s) * 0 == 0 && 0 * c == 0 && 0 * s == 0 && 0 * (-s) == 0,
{
    assert(c * s + (-s) * c == 0) by (nonlinear_arith);
    assert((-s) * c + c * s == 0) by (nonlinear_arith);
    assert(c * (-s) + s * c == 0) by (nonlinear_arith);
    assert((-s) * (-s) == s * s) by (nonlinear_arith);
}

impl Mat3 {
    /// Rotation about the X axis, from the cosine and sine of the angle in fixed point.
    pub fn gen_rotx(cos: i64, sin: i64) -> (r: Mat3)
        requires
            -SCALE <= cos <= SCALE,
            -SCALE <= sin <= SCALE,
        ensures
            r.x == (Point { x: SCALE, y: 0, z: 0 }),
            r.y == (Point { x: 0, y: cos, z: -sin as i64 }),
            r.z == (Point { x: 0, y: sin, z: cos }),
            dot_of(r.x, r.y) == 0 && dot_of(r.x, r.z) == 0 && dot_of(r.y, r.z) == 0,
            norm2(r.x) == SCALE * SCALE,
            norm2(r.y) == cos * cos + sin * sin && norm2(r.z) == cos * cos + sin * sin,
    {
        proof {
            lemma_rotation_facts(cos as int, sin as int);
        }
        Mat3 {
            x: Point { x: SCALE, y: 0, z: 0 },
            y: Point { x: 0, y: cos, z: -sin },
            z: Point { x: 0, y: sin, z: cos },
        }
    }

    /// Rotation about the Y axis, from the cosine and sine of the angle in fixed point.
    pub fn gen_roty(cos: i64, sin: i64) -> (r: Mat3)
        requires
            -SCALE <= cos <= SCALE,
            -SCALE <= sin <= SCALE,
        ensures
            r.x == (Point { x: cos, y: 0, z: sin }),
            r.y == (Point { x: 0, y: SCALE, z: 0 }),
            r.z == (Point { x: -sin as i64, y: 0, z: cos }),
            dot_of(r.x, r.y) == 0 && dot_of(r.x, r.z) == 0 && dot_of(r.y, r.z) == 0,
            norm2(r.y) == SCALE * SCALE,
            norm2(r.x) == cos * cos + sin * sin && norm2(r.z) == cos * cos + sin * sin,
    {
        proof {
            lemma_rotation_facts(cos as int, sin as int);
        }
        Mat3 {
            x: Point { x: cos, y: 0, z: sin },
            y: Point { x: 0, y: SCALE, z: 0 },
            z: Point { x: -sin, y: 0, z: cos },
        }
    }

    /// Row-major matrix-vector product.
    pub fn mul_vec(&self, vec: Point) -> (r: Point)
        requires
            bounded(self.x, 0x40_0000_0000),
            bounded(self.y, 0x40_0000_0000),
            bounded(self.z, 0x40_0000_0000),
            bounded(vec, 0x40_0000_0000),
        ensures
            r == mat_mul_of(*self, vec),
    {
        let a = self.x.dot(vec);
        let b = self.y.dot(vec);
        let c = self.z.dot(vec);
        proof {
            lemma_dot_bound(self.x, vec, 0x40_0000_0000, 0x40_0000_0000);
            lemma_dot_bound(self.y, vec, 0x40_0000_0000, 0x40_0000_0000);
            lemma_dot_bound(self.z, vec, 0x40_0000_0000, 0x40_0000_0000);
            crate::fixed::lemma_div_bound(a as int, SCALE as int, 0x3000_0000_0000_0000);
            crate::fixed::lemma_div_bound(b as int, SCALE as int, 0x3000_0000_0000_0000);
            crate::fixed::lemma_div_bound(c as int, SCALE as int, 0x3000_0000_0000_0000);
        }
        let qa = fdiv(a, SCALE as i128);
        let qb = fdiv(b, SCALE as i128);
        let qc = fdiv(c, SCALE as i128);
        Point { x: qa as i64, y: qb as i64, z: qc as i64 }
    }
}

/// One component of a unit vector: with `u = c s / m` rounded down and `|c| <= m`,
/// `m^2 u^2` is within `2 s m^2` (below) and `2 s m^2 + m^2` (above) of `c^2 s^2`.
pub proof fn lemma_unit_component(c: int, m: int, s: int)
    requires
        m > 0,
        s > 0,
        -m <= c <= m,
    ensures
        ({
            let u = c * s / m;
            &&& c * c * (s * s) - 2 * s * (m * m) <= (m * m) * (u * u)
            &&& (m * m) * (u * u) <= c * c * (s * s) + 2 * s * (m * m) + m * m
            &&& -s <= u <= s
        }),
{
    let u = c * s / m;
    vstd::arithmetic::div_mod::lemma_fundamental_div_mod(c * s, m);
    vstd::arithmetic::div_mod::lemma_mod_bound(c * s, m);
    let e = (c * s) % m;
    assert(m * u == c * s - e);
    assert((m * m) * (u * u) == (c * s - e) * (c * s - e)) by (nonlinear_arith)
        requires
            m * u == c * s - e,
    ;
    assert((c * s - e) * (c * s - e) == c * c * (s * s) - 2 * s * (c * e) + e * e) by (nonlinear_arith);
    assert(-(m * m) <= c * e <= m * m) by (nonlinear_arith)
        requires
            -m <= c <= m,
            0 <= e < m,
    ;
    assert(-(2 * s * (m * m)) <= 2 * s * (c * e) <= 2 * s * (m * m)) by (nonlinear_arith)
        requires
            -(m * m) <= c * e <= m * m,
            s > 0,
    ;
    assert(0 <= e * e <= m * m) by (nonlinear_arith)
        requires
            0 <= e < m,
    ;
    crate::fixed::lemma_mul_bound(c, s, m, s);
    assert(m * s == s * m) by (nonlinear_arith);
    crate::fixed::lemma_div_bound(c * s, m, s);
}

/// Rounding components of `c s / m` down, where `m` is the integer square root of `|c|^2`
/// and `m >= s`, gives a vector whose squared length is within `[s^2 - 6 s, s^2 + 8 s + 3]`.
pub proof fn lemma_scaled_length(cx: int, cy: int, cz: int, m: int, s: int)
    requires
        s > 0,
        m >= s,
        m * m <= cx * cx + cy * cy + cz * cz < (m + 1) * (m + 1),
    ensures
        ({
            let (ux, uy, uz) = (cx * s / m, cy * s / m, cz * s / m);
            s * s - 6 * s <= ux * ux + uy * uy + uz * uz <= s * s + 8 * s + 3
        }),
{
    let n = cx * cx + cy * cy + cz * cz;
    assert(cx * cx <= n && cy * cy <= n && cz * cz <= n) by (nonlinear_arith)
        requires
            n == cx * cx + cy * cy + cz * cz,
    ;
    assert(-m <= cx <= m) by (nonlinear_arith)
        requires
            cx * cx < (m + 1) * (m + 1),
            m > 0,
    ;
    assert(-m <= cy <= m) by (nonlinear_arith)
        requires
            cy * cy < (m + 1) * (m + 1),
            m > 0,
    ;
    assert(-m <= cz <= m) by (nonlinear_arith)
        requires
            cz * cz < (m + 1) * (m + 1),
            m > 0,
    ;
    lemma_unit_component(cx, m, s);
    lemma_unit_component(cy, m, s);
    lemma_unit_component(cz, m, s);
    let ux = cx * s / m;
    let uy = cy * s / m;
    let uz = cz * s / m;
    let mm = m * m;
    let t = ux * ux + uy * uy + uz * uz;
    assert(mm * t == mm * (ux * ux) + mm * (uy * uy) + mm * (uz * uz)) by (nonlinear_arith)
        requires
            t == ux * ux + uy * uy + uz * uz,
    ;
    assert(2 * s * (m * m) + 2 * s * (m * m) + 2 * s * (m * m) == 6 * s * mm) by (nonlinear_arith)
        requires
            mm == m * m,
    ;
    assert(m * m + m * m + m * m == 3 * mm);
    assert(cx * cx * (s * s) + cy * cy * (s * s) + cz * cz * (s * s) == n * (s * s)) by (nonlinear_arith)
        requires
            n == cx * cx + cy * cy + cz * cz,
    ;
    assert(n * (s * s) - 6 * s * mm <= mm * t <= n * (s * s) + 6 * s * mm + 3 * mm);
    assert(mm * (s * s) <= n * (s * s)) by (nonlinear_arith)
        requires
            mm <= n,
    ;
    assert(n * (s * s) <= mm * (s * s) + 2 * s * mm) by (nonlinear_arith)
        requires
            n < (m + 1) * (m + 1),
            mm == m * m,
            m >= s,
            s > 0,
    ;
    assert((s * s - 6 * s) * mm <= t * mm) by (nonlinear_arith)
        requires
            mm * (s * s) - 6 * s * mm <= mm * t,
    ;
    assert(t * mm <= (s * s + 8 * s + 3) * mm) by (nonlinear_arith)
        requires
            mm * t <= mm * (s * s) + 2 * s * mm + 6 * s * mm + 3 * mm,
    ;
    assert(mm > 0) by (nonlinear_arith)
        requires
            m > 0,
            mm == m * m,
    ;
    vstd::arithmetic::mul::lemma_mul_inequality_converse(s * s - 6 * s, t, mm);
    vstd::arithmetic::mul::lemma_mul_inequality_converse(t, s * s + 8 * s + 3, mm);
}

/// A unit vector has length one up to rounding: for every non-zero vector, the squared
/// length of `unit_of(v)` lies in `[SCALE^2 - 6 SCALE, SCALE^2 + 8 SCALE + 3]`, that is
/// its length is within `1e-4` of one world unit.
pub proof fn lemma_unit_magnitude(v: Point)
    requires
        bounded(v, 0x4000_0000_0000),
        norm2(v) > 0,
    ensures
        SCALE * SCALE - 6 * SCALE <= norm2(unit_of(v)) <= SCALE * SCALE + 8 * SCALE + 3,
{
    let s = SCALE as int;
    let n = norm2(v);
    let nn = n * (s * s);
    assert(nn >= s * s) by (nonlinear_arith)
        requires
            n >= 1,
            nn == n * (s * s),
    ;
    lemma_isqrt_of(nn as nat);
    let m = fine_mag_of(v);
    if m < s {
        assert((m + 1) * (m + 1) <= s * s) by (nonlinear_arith)
            requires
                0 <= m < s,
        ;
    }
    let (cx, cy, cz) = (v.x * s, v.y * s, v.z * s);
    assert(cx * cx + cy * cy + cz * cz == nn) by (nonlinear_arith)
        requires
            cx == v.x * s,
            cy == v.y * s,
            cz == v.z * s,
            n == v.x * v.x + v.y * v.y + v.z * v.z,
            nn == n * (s * s),
    ;
    lemma_scaled_length(cx, cy, cz, m, s);
    let u = unit_of(v);
    assert(u.x == cx * s / m && u.y == cy * s / m && u.z == cz * s / m) by {
        assert(v.x * SCALE * SCALE == cx * s);
        assert(v.y * SCALE * SCALE == cy * s);
        assert(v.z * SCALE * SCALE == cz * s);
        assert(cx * cx <= nn && cy * cy <= nn && cz * cz <= nn) by (nonlinear_arith)
            requires
                nn == cx * cx + cy * cy + cz * cz,
        ;
        assert(-m <= cx <= m && -m <= cy <= m && -m <= cz <= m) by (nonlinear_arith)
            requires
                cx * cx < (m + 1) * (m + 1),
                cy * cy < (m + 1) * (m + 1),
                cz * cz < (m + 1) * (m + 1),
                m > 0,
        ;
        lemma_unit_component(cx, m, s);
        lemma_unit_component(cy, m, s);
        lemma_unit_component(cz, m, s);
    }
}

} // verus!
