//! Primitives that a ray can hit: spheres, axis-aligned rectangles and boxes.
use vstd::prelude::*;

use crate::fixed::{SCALE, fdiv, isqrt, isqrt_of, lemma_div_bound, lemma_mul_bound};
use crate::hittable::HitInfo;
use crate::material::Material;
use crate::ray::Ray;
use crate::vmaths::{LIMIT, Point, bounded, dot_of, lemma_bounded_sum, lemma_dot_bound, lemma_norm2_nonneg, minus_of, norm2};

verus! {

/// A ray whose origin and direction lie within the scene's coordinate range.
pub open spec fn ray_wf(ray: Ray) -> bool {
    ray.origin.in_world() && ray.dir.in_world()
}

/// The sphere `|p - cen| = r`.
#[derive(Clone, Copy, Debug, PartialEq, Eq)]
pub struct Sphere {
    pub cen: Point,
    pub r: i64,
    pub material: Material,
}

/// The offset of the ray's origin from the sphere's center.
pub open spec fn sphere_oc(s: Sphere, ray: Ray) -> Point {
    minus_of(ray.origin, s.cen)
}

/// Discriminant of `|O + t d - C|^2 = r^2` divided by four, in raw units.
pub open spec fn sphere_disc(s: Sphere, ray: Ray) -> int {
    let oc = sphere_oc(s, ray);
    let b = dot_of(ray.dir, oc);
    b * b - norm2(ray.dir) * (norm2(oc) - s.r * s.r)
}

/// The numerator `n` of the chosen root `t = n / |d|^2`, or `None` on a miss.
///
/// For a unit direction the discriminant in world units is `4 D / (|d|^2 SCALE^2)`:
/// a discriminant of at most zero misses, one below `0.01` is a tangent hit at the
/// closest approach, and otherwise the root `-b + sqrt(D)` is taken.
pub open spec fn sphere_root(s: Sphere, ray: Ray) -> Option<int> {
    let d = sphere_disc(s, ray);
    let b = dot_of(ray.dir, sphere_oc(s, ray));
    if d <= 0 {
        None
    } else if 400 * d < norm2(ray.dir) * (SCALE * SCALE) {
        Some(-b)
    } else {
        Some(-b + isqrt_of(d as nat))
    }
}

/// The point `O + d * n / |d|^2`, each component rounded down.
pub open spec fn sphere_point(ray: Ray, n: int) -> Point {
    let q = norm2(ray.dir);
    Point {
        x: (ray.origin.x + ray.dir.x * n / q) as i64,
        y: (ray.origin.y + ray.dir.y * n / q) as i64,
        z: (ray.origin.z + ray.dir.z * n / q) as i64,
    }
}

/// The hit of a ray on a sphere, solved with the ray's direction as given.
pub open spec fn sphere_hit_along(s: Sphere, ray: Ray) -> Option<HitInfo> {
    match sphere_root(s, ray) {
        None => None,
        Some(n) => {
            let p = sphere_point(ray, n);
            Some(HitInfo { ip: p, norm: minus_of(p, s.cen), hit_mat: s.material })
        },
    }
}

/// `|x|`.
pub open spec fn abs(x: int) -> int {
    if x < 0 {
        -x
    } else {
        x
    }
}

/// The largest component magnitude of `d`.
pub open spec fn max_abs(d: Point) -> int {
    let (a, b, c) = (abs(d.x as int), abs(d.y as int), abs(d.z as int));
    if a >= b && a >= c {
        a
    } else if b >= c {
        b
    } else {
        c
    }
}

/// The factor `LIMIT / max|d_i|` (one for the zero vector) that stretches a direction to
/// nearly the full coordinate range.
pub open spec fn stretch_factor(d: Point) -> int {
    if max_abs(d) == 0 {
        1
    } else {
        (LIMIT as int) / max_abs(d)
    }
}

/// The ray with its direction multiplied by `stretch_factor`: the same line, described
/// with a long direction.
pub open spec fn stretched(ray: Ray) -> Ray {
    let k = stretch_factor(ray.dir);
    Ray {
        origin: ray.origin,
        dir: Point {
            x: (ray.dir.x * k) as i64,
            y: (ray.dir.y * k) as i64,
            z: (ray.dir.z * k) as i64,
        },
    }
}

/// What `Sphere::hits` returns: the hit along the stretched ray. Stretching keeps the line,
/// the sign of the discriminant and its comparison with `0.01`, and lets the square root be
/// taken at full precision even for a very short direction.
pub open spec fn sphere_hit_of(s: Sphere, ray: Ray) -> Option<HitInfo> {
    sphere_hit_along(s, stretched(ray))
}

/// A stretched direction stays in range, and a non-zero one has a component of magnitude
/// at least `LIMIT / 2`.
pub proof fn lemma_stretched(ray: Ray)
    requires
        ray_wf(ray),
    ensures
        ray_wf(stretched(ray)),
        stretch_factor(ray.dir) >= 1,
        stretched(ray).dir.x == ray.dir.x * stretch_factor(ray.dir),
        stretched(ray).dir.y == ray.dir.y * stretch_factor(ray.dir),
        stretched(ray).dir.z == ray.dir.z * stretch_factor(ray.dir),
        norm2(ray.dir) > 0 ==> norm2(stretched(ray).dir) >= (LIMIT / 2) * (LIMIT / 2),
{
    let d = ray.dir;
    let m = max_abs(d);
    let k = stretch_factor(d);
    let l = LIMIT as int;
    assert(0 <= m <= l);
    if m > 0 {
        vstd::arithmetic::div_mod::lemma_fundamental_div_mod(l, m);
        vstd::arithmetic::div_mod::lemma_mod_bound(l, m);
        assert(k >= 1 && k * m <= l && k * m > l - m) by (nonlinear_arith)
            requires
                l == m * k + l % m,
                0 <= l % m < m,
                0 < m <= l,
                k == l / m,
        ;
    }
    lemma_scale_component(d.x as int, m, k, l);
    lemma_scale_component(d.y as int, m, k, l);
    lemma_scale_component(d.z as int, m, k, l);
    if norm2(d) > 0 {
        lemma_norm2_nonneg(d);
        let e = stretched(ray).dir;
        assert(m > 0);
        if m > l / 2 {
            assert(k * m >= m) by (nonlinear_arith)
                requires
                    k >= 1,
                    m > 0,
            ;
        }
        assert(k * m >= l / 2);
        let c = if m == abs(d.x as int) { d.x as int } else if m == abs(d.y as int) { d.y as int } else { d.z as int };
        assert(c == m || c == -m);
        assert((c * k) * (c * k) >= (l / 2) * (l / 2)) by (nonlinear_arith)
            requires
                c == m || c == -m,
                k * m >= l / 2,
                l / 2 >= 0,
        ;
        assert(norm2(e) >= (c * k) * (c * k)) by (nonlinear_arith)
            requires
                c * k == e.x || c * k == e.y || c * k == e.z,
                norm2(e) == e.x * e.x + e.y * e.y + e.z * e.z,
        ;
    }
}

/// A component of magnitude at most `m`, times `k` with `k m <= l`, stays within `[-l, l]`.
pub proof fn lemma_scale_component(x: int, m: int, k: int, l: int)
    requires
        -m <= x <= m,
        k >= 1,
        m == 0 || k * m <= l,
        l >= 0,
    ensures
        -l <= x * k <= l,
{
    if m == 0 {
        assert(x * k == 0) by (nonlinear_arith)
            requires
                x == 0,
        ;
    } else {
        assert(-(k * m) <= x * k <= k * m) by (nonlinear_arith)
            requires
                -m <= x <= m,
                k >= 1,
        ;
    }
}

/// Scaling one vector by `k` scales a dot product by `k`.
pub proof fn lemma_dot_scaled(a1: int, a2: int, a3: int, b1: int, b2: int, b3: int, k: int)
    ensures
        (a1 * k) * b1 + (a2 * k) * b2 + (a3 * k) * b3 == k * (a1 * b1 + a2 * b2 + a3 * b3),
        (a1 * k) * (a1 * k) + (a2 * k) * (a2 * k) + (a3 * k) * (a3 * k) == k * k * (a1 * a1 + a2 * a2 + a3 * a3),
{
    assert((a1 * k) * b1 == k * (a1 * b1)) by (nonlinear_arith);
    assert((a2 * k) * b2 == k * (a2 * b2)) by (nonlinear_arith);
    assert((a3 * k) * b3 == k * (a3 * b3)) by (nonlinear_arith);
    assert(k * (a1 * b1) + k * (a2 * b2) + k * (a3 * b3) == k * (a1 * b1 + a2 * b2 + a3 * b3)) by (nonlinear_arith);
    assert((a1 * k) * (a1 * k) == k * k * (a1 * a1)) by (nonlinear_arith);
    assert((a2 * k) * (a2 * k) == k * k * (a2 * a2)) by (nonlinear_arith);
    assert((a3 * k) * (a3 * k) == k * k * (a3 * a3)) by (nonlinear_arith);
    assert(k * k * (a1 * a1) + k * k * (a2 * a2) + k * k * (a3 * a3) == k * k * (a1 * a1 + a2 * a2 + a3 * a3)) by (nonlinear_arith);
}

/// `(q r)^2 == q (q r^2)`.
pub proof fn lemma_square_of_product(q: int, r: int)
    ensures
        (q * r) * (q * r) == q * (q * (r * r)),
{
    assert((q * r) * (q * r) == q * (q * (r * r))) by (nonlinear_arith);
}

/// `(q * a + x) / q == a + x / q` for a positive divisor.
pub proof fn lemma_div_shift(a: int, x: int, q: int)
    requires
        q > 0,
    ensures
        (q * a + x) / q == a + x / q,
{
    vstd::arithmetic::div_mod::lemma_fundamental_div_mod(x, q);
    vstd::arithmetic::div_mod::lemma_mod_bound(x, q);
    assert(q * a + x == q * (a + x / q) + x % q) by (nonlinear_arith)
        requires
            x == q * (x / q) + x % q,
    ;
    vstd::arithmetic::div_mod::lemma_fundamental_div_mod_converse(q * a + x, q, a + x / q, x % q);
}

/// `(q o + e n)^2 = q^2 o^2 + 2 q n (e o) + n^2 e^2`.
pub proof fn lemma_square_expand(q: int, o: int, e: int, n: int)
    ensures
        (q * o + e * n) * (q * o + e * n) == q * q * (o * o) + 2 * q * n * (e * o) + n * n * (e * e),
{
    let a = q * o;
    let c = e * n;
    assert((a + c) * (a + c) == a * a + 2 * (a * c) + c * c) by (nonlinear_arith);
    assert(a * a == q * q * (o * o)) by (nonlinear_arith)
        requires
            a == q * o,
    ;
    assert(a * c == q * n * (e * o)) by (nonlinear_arith)
        requires
            a == q * o,
            c == e * n,
    ;
    assert(c * c == n * n * (e * e)) by (nonlinear_arith)
        requires
            c == e * n,
    ;
    assert(2 * (a * c) == 2 * q * n * (e * o)) by (nonlinear_arith)
        requires
            a * c == q * n * (e * o),
    ;
}

/// A value whose square is at most `k * k` lies in `[-k, k]`.
pub proof fn lemma_square_bound(e: int, k: int)
    requires
        k >= 0,
        e * e <= k * k,
    ensures
        -k <= e <= k,
{
    if e > k {
        assert(k * k < e * e) by (nonlinear_arith)
            requires
                0 <= k < e,
        ;
    }
    if e < -k {
        assert(k * k < e * e) by (nonlinear_arith)
            requires
                0 <= k,
                e < -k,
        ;
    }
}

/// With `n = s - b` and `s * s <= D`, the exact point `O + d n / q` lies in the ball:
/// the scaled offsets `E = q * oc + d * n` have `|E|^2 = q (q |oc|^2 + s^2 - b^2) <= q^2 r^2`.
pub proof fn lemma_root_in_ball(oc: Point, d: Point, r: int, s: int)
    requires
        r >= 0,
        s >= 0,
        s * s <= sphere_disc_parts(oc, d, r),
    ensures
        ({
            let q = norm2(d);
            let n = s - dot_of(d, oc);
            let ex = q * oc.x + d.x * n;
            let ey = q * oc.y + d.y * n;
            let ez = q * oc.z + d.z * n;
            &&& ex * ex + ey * ey + ez * ez == q * (q * norm2(oc) + s * s - dot_of(d, oc) * dot_of(d, oc))
            &&& ex * ex + ey * ey + ez * ez <= (q * r) * (q * r)
        }),
{
    let q = norm2(d);
    let b = dot_of(d, oc);
    let n = s - b;
    let ex = q * oc.x + d.x * n;
    let ey = q * oc.y + d.y * n;
    let ez = q * oc.z + d.z * n;
    lemma_square_expand(q, oc.x as int, d.x as int, n);
    lemma_square_expand(q, oc.y as int, d.y as int, n);
    lemma_square_expand(q, oc.z as int, d.z as int, n);
    let qq = q * q;
    let qn2 = 2 * q * n;
    let nn = n * n;
    assert(qq * norm2(oc) == qq * (oc.x * oc.x) + qq * (oc.y * oc.y) + qq * (oc.z * oc.z))
        by (nonlinear_arith)
        requires
            norm2(oc) == oc.x * oc.x + oc.y * oc.y + oc.z * oc.z,
    ;
    assert(qn2 * b == qn2 * (d.x * oc.x) + qn2 * (d.y * oc.y) + qn2 * (d.z * oc.z))
        by (nonlinear_arith)
        requires
            b == d.x * oc.x + d.y * oc.y + d.z * oc.z,
    ;
    assert(nn * q == nn * (d.x * d.x) + nn * (d.y * d.y) + nn * (d.z * d.z))
        by (nonlinear_arith)
        requires
            q == d.x * d.x + d.y * d.y + d.z * d.z,
    ;
    assert(ex * ex + ey * ey + ez * ez == qq * norm2(oc) + qn2 * b + nn * q);
    assert(qq * norm2(oc) + qn2 * b + nn * q == q * q * norm2(oc) + 2 * q * n * b + n * n * q);
    assert(2 * q * n * b + n * n * q == q * (s * s - b * b)) by (nonlinear_arith)
        requires
            n == s - b,
    ;
    assert(q * q * norm2(oc) + q * (s * s - b * b) == q * (q * norm2(oc) + s * s - b * b))
        by (nonlinear_arith);
    lemma_norm2_nonneg(d);
    assert(q * (q * norm2(oc) + s * s - b * b) <= q * (q * (r * r))) by (nonlinear_arith)
        requires
            q >= 0,
            s * s <= b * b - q * (norm2(oc) - r * r),
    ;
    assert((q * r) * (q * r) == q * (q * (r * r))) by (nonlinear_arith);
}

/// The quarter discriminant from its parts.
pub open spec fn sphere_disc_parts(oc: Point, d: Point, r: int) -> int {
    let b = dot_of(d, oc);
    b * b - norm2(d) * (norm2(oc) - r * r)
}

impl Sphere {
    /// Center, radius and material within range.
    pub open spec fn wf(self) -> bool {
        self.cen.in_world() && 0 <= self.r <= LIMIT && self.material.wf()
    }

    /// Intersection of the ray with the sphere, by the chosen root of the quadratic, after
    /// stretching the direction.
    ///
    /// A hit point always lies within the cube of half-side `r` around the center.
    pub fn hits(&self, ray: &Ray) -> (res: Option<HitInfo>)
        requires
            self.wf(),
            ray_wf(*ray),
        ensures
            res == sphere_hit_of(*self, *ray),
            res matches Some(h) ==> bounded(h.norm, self.r as int) && h.ip == crate::vmaths::plus_of(self.cen, h.norm),
    {
        proof {
            lemma_stretched(*ray);
        }
        let d = ray.dir;
        let ax = if d.x < 0 { -d.x } else { d.x };
        let ay = if d.y < 0 { -d.y } else { d.y };
        let az = if d.z < 0 { -d.z } else { d.z };
        let m = if ax >= ay && ax >= az { ax } else if ay >= az { ay } else { az };
        let k: i64 = if m == 0 { 1 } else { fdiv(LIMIT as i128, m as i128) as i64 };
        let long = Ray { origin: ray.origin, dir: Point { x: d.x * k, y: d.y * k, z: d.z * k } };
        assert(long == stretched(*ray));
        self.hits_along(&long)
    }

    /// The hit along the ray with its direction as given.
    fn hits_along(&self, ray: &Ray) -> (res: Option<HitInfo>)
        requires
            self.wf(),
            ray_wf(*ray),
        ensures
            res == sphere_hit_along(*self, *ray),
            res matches Some(h) ==> bounded(h.norm, self.r as int) && h.ip == crate::vmaths::plus_of(self.cen, h.norm),
    {
        let ghost k: int = 0x2000_0000;
        let o = ray.origin;
        let d = ray.dir;
        proof {
            lemma_bounded_sum(o, self.cen, LIMIT as int, LIMIT as int);
        }
        let oc = Point { x: o.x - self.cen.x, y: o.y - self.cen.y, z: o.z - self.cen.z };
        assert(oc == sphere_oc(*self, *ray));
        let b = d.dot(oc);
        let q = d.dot(d);
        let c = oc.dot(oc);
        proof {
            lemma_dot_bound(d, oc, LIMIT as int, k);
            lemma_dot_bound(d, d, LIMIT as int, LIMIT as int);
            lemma_dot_bound(oc, oc, k, k);
            lemma_norm2_nonneg(d);
            lemma_norm2_nonneg(oc);
            lemma_mul_bound(self.r as int, self.r as int, LIMIT as int, LIMIT as int);
            lemma_mul_bound(b as int, b as int, 0x600_0000_0000_0000, 0x600_0000_0000_0000);
            lemma_mul_bound(q as int, c as int - self.r * self.r, 0x300_0000_0000_0000, 0xd00_0000_0000_0000);
            lemma_mul_bound(q as int, self.r * self.r, 0x300_0000_0000_0000, 0x100_0000_0000_0000);
            assert(q * c >= 0) by (nonlinear_arith)
                requires
                    q >= 0,
                    c >= 0,
            ;
            assert(q * (c - self.r * self.r) == q * c - q * (self.r * self.r)) by (nonlinear_arith);
        }
        let rr = (self.r as i128) * (self.r as i128);
        let disc = b * b - q * (c - rr);
        assert(disc == sphere_disc(*self, *ray));
        if disc <= 0 {
            return None;
        }
        proof {
            if q == 0 {
                assert(d.x == 0 && d.y == 0 && d.z == 0);
                assert(b == 0) by (nonlinear_arith)
                    requires
                        d.x == 0 && d.y == 0 && d.z == 0,
                        b == d.x * oc.x + d.y * oc.y + d.z * oc.z,
                ;
                assert(disc == 0) by (nonlinear_arith)
                    requires
                        b == 0,
                        q == 0,
                        disc == b * b - q * (c - rr),
                ;
            }
            assert(q > 0);
            lemma_mul_bound(q as int, SCALE as int * SCALE as int, 0x300_0000_0000_0000, 0x1_0000_0000);
            assert(disc <= 0x300_0000_0000_0000_0000_0000_0000_0000);
        }
        let s: i128 = if 400 * disc < q * ((SCALE as i128) * (SCALE as i128)) {
            0
        } else {
            let sq = isqrt(disc as u128);
            proof {
                crate::fixed::lemma_isqrt_of(disc as nat);
                crate::fixed::lemma_root_below(sq as int, 0x1000_0000_0000_0000);
            }
            sq as i128
        };
        let n = s - b;
        assert(sphere_root(*self, *ray) == Some(n as int));
        proof {
            lemma_root_in_ball(oc, d, self.r as int, s as int);
        }
        let x = self.coord(o.x, self.cen.x, d.x, n, q, oc, d);
        let y = self.coord(o.y, self.cen.y, d.y, n, q, oc, d);
        let z = self.coord(o.z, self.cen.z, d.z, n, q, oc, d);
        let p = Point { x, y, z };
        let norm = Point { x: x - self.cen.x, y: y - self.cen.y, z: z - self.cen.z };
        Some(HitInfo { ip: p, norm, hit_mat: self.material })
    }

    /// The center of the sphere.
    pub fn get_pos(&self) -> (r: Point)
        ensures
            r == self.cen,
    {
        self.cen
    }

    /// One component `o + d * n / q` of a sphere hit point, with its offset from the center.
    fn coord(&self, o: i64, c: i64, di: i64, n: i128, q: i128, oc: Point, d: Point) -> (r: i64)
        requires
            self.wf(),
            q > 0,
            q == norm2(d),
            bounded(d, LIMIT as int),
            -LIMIT <= o <= LIMIT,
            -LIMIT <= c <= LIMIT,
            -0x10_0000_0000_0000_0000 <= n <= 0x10_0000_0000_0000_0000,
            (o == oc.x + c && di == d.x) || (o == oc.y + c && di == d.y) || (o == oc.z + c && di == d.z),
            ({
                let ex = q * oc.x + d.x * n;
                let ey = q * oc.y + d.y * n;
                let ez = q * oc.z + d.z * n;
                ex * ex + ey * ey + ez * ez <= (q * self.r) * (q * self.r)
            }),
        ensures
            r == o + di * n / (q as int),
            -self.r <= r - c <= self.r,
    {
        proof {
            lemma_mul_bound(di as int, n as int, LIMIT as int, 0x10_0000_0000_0000_0000);
            let e = q * (o - c) + di * n;
            let ex = q * oc.x + d.x * n;
            let ey = q * oc.y + d.y * n;
            let ez = q * oc.z + d.z * n;
            assert(e * e <= ex * ex + ey * ey + ez * ez) by (nonlinear_arith)
                requires
                    e == ex || e == ey || e == ez,
            ;
            assert(q * self.r >= 0) by (nonlinear_arith)
                requires
                    q > 0,
                    self.r >= 0,
            ;
            lemma_square_bound(e, q * self.r);
            assert(q * (self.r as int) == (self.r as int) * q) by (nonlinear_arith);
            lemma_div_bound(e, q as int, self.r as int);
            lemma_div_shift(o - c, di * n, q as int);
        }
        let t = fdiv((di as i128) * n, q);
        (o as i128 + t) as i64
    }
}

/// Where a ray meets the plane `n = plane`, the coordinate along another axis `a`:
/// `o_a + t d_a` with `t = (plane - o_n) / d_n`, rounded down. `d_n` must not be zero.
pub open spec fn plane_coord(o_a: int, d_a: int, o_n: int, d_n: int, plane: int) -> int {
    if d_n > 0 {
        o_a + (plane - o_n) * d_a / d_n
    } else {
        o_a + (o_n - plane) * d_a / (-d_n)
    }
}

/// The in-plane coordinates `(a, b)` where a ray meets the rectangle
/// `n = plane, lo_a <= a <= hi_a, lo_b <= b <= hi_b`; `None` if the ray is parallel to the
/// plane or meets it outside the bounds.
pub open spec fn rect_hit_of(
    plane: int,
    lo_a: int,
    hi_a: int,
    lo_b: int,
    hi_b: int,
    o_a: int,
    d_a: int,
    o_b: int,
    d_b: int,
    o_n: int,
    d_n: int,
) -> Option<(int, int)> {
    if d_n == 0 {
        None
    } else {
        let a = plane_coord(o_a, d_a, o_n, d_n, plane);
        let b = plane_coord(o_b, d_b, o_n, d_n, plane);
        if lo_a <= a <= hi_a && lo_b <= b <= hi_b {
            Some((a, b))
        } else {
            None
        }
    }
}

/// Every argument within the scene's coordinate range.
pub open spec fn all_in_world(v: Seq<int>) -> bool {
    forall|i: int| 0 <= i < v.len() ==> -LIMIT <= #[trigger] v[i] <= LIMIT
}

/// The coordinate along axis `a` where the ray meets the plane `n = plane`.
fn plane_coord_exec(o_a: i64, d_a: i64, o_n: i64, d_n: i64, plane: i64) -> (r: i64)
    requires
        d_n != 0,
        all_in_world(seq![o_a as int, d_a as int, o_n as int, d_n as int, plane as int]),
    ensures
        r == plane_coord(o_a as int, d_a as int, o_n as int, d_n as int, plane as int),
{
    let ghost v = seq![o_a as int, d_a as int, o_n as int, d_n as int, plane as int];
    assert(-LIMIT <= v[0] <= LIMIT && -LIMIT <= v[1] <= LIMIT && -LIMIT <= v[2] <= LIMIT);
    assert(-LIMIT <= v[3] <= LIMIT && -LIMIT <= v[4] <= LIMIT);
    proof {
        lemma_mul_bound((plane - o_n) as int, d_a as int, 0x2000_0000, LIMIT as int);
        lemma_mul_bound((o_n - plane) as int, d_a as int, 0x2000_0000, LIMIT as int);
    }
    let (num, den): (i128, i128) = if d_n > 0 {
        ((plane as i128 - o_n as i128) * (d_a as i128), d_n as i128)
    } else {
        ((o_n as i128 - plane as i128) * (d_a as i128), -(d_n as i128))
    };
    proof {
        assert(0x200_0000_0000_0000 <= 0x200_0000_0000_0000 * den) by (nonlinear_arith)
            requires
                den >= 1,
        ;
        lemma_div_bound(num as int, den as int, 0x200_0000_0000_0000);
    }
    let t = fdiv(num, den);
    (o_a as i128 + t) as i64
}

/// The in-plane coordinates of a rectangle hit, as in `rect_hit_of`.
fn rect_hit(
    plane: i64,
    lo_a: i64,
    hi_a: i64,
    lo_b: i64,
    hi_b: i64,
    o_a: i64,
    d_a: i64,
    o_b: i64,
    d_b: i64,
    o_n: i64,
    d_n: i64,
) -> (r: Option<(i64, i64)>)
    requires
        all_in_world(
            seq![plane as int, lo_a as int, hi_a as int, lo_b as int, hi_b as int, o_a as int, d_a as int, o_b as int, d_b as int, o_n as int, d_n as int],
        ),
    ensures
        r matches Some(p) ==> rect_hit_of(plane as int, lo_a as int, hi_a as int, lo_b as int, hi_b as int, o_a as int, d_a as int, o_b as int, d_b as int, o_n as int, d_n as int) == Some((p.0 as int, p.1 as int)),
        r is None ==> rect_hit_of(plane as int, lo_a as int, hi_a as int, lo_b as int, hi_b as int, o_a as int, d_a as int, o_b as int, d_b as int, o_n as int, d_n as int) is None,
{
    let ghost v = seq![plane as int, lo_a as int, hi_a as int, lo_b as int, hi_b as int, o_a as int, d_a as int, o_b as int, d_b as int, o_n as int, d_n as int];
    assert(v[0] == plane && v[5] == o_a && v[6] == d_a && v[7] == o_b && v[8] == d_b && v[9] == o_n && v[10] == d_n);
    if d_n == 0 {
        return None;
    }
    let a = plane_coord_exec(o_a, d_a, o_n, d_n, plane);
    let b = plane_coord_exec(o_b, d_b, o_n, d_n, plane);
    if lo_a <= a && a <= hi_a && lo_b <= b && b <= hi_b {
        Some((a, b))
    } else {
        None
    }
}

/// Rectangle on the plane `z = const`.
#[derive(Clone, Copy, Debug, PartialEq, Eq)]
pub struct XYRect {
    pub z: i64,
    pub x0: i64,
    pub x1: i64,
    pub y0: i64,
    pub y1: i64,
    pub material: Material,
}

/// Rectangle on the plane `y = const`.
#[derive(Clone, Copy, Debug, PartialEq, Eq)]
pub struct XZRect {
    pub y: i64,
    pub x0: i64,
    pub x1: i64,
    pub z0: i64,
    pub z1: i64,
    pub material: Material,
}

/// Rectangle on the plane `x = const`.
#[derive(Clone, Copy, Debug, PartialEq, Eq)]
pub struct YZRect {
    pub x: i64,
    pub y0: i64,
    pub y1: i64,
    pub z0: i64,
    pub z1: i64,
    pub material: Material,
}

/// What `XYRect::hits` returns. The normal is `+z` when the ray heads to lower `z` and the
/// plane is at or below zero, `-z` otherwise.
pub open spec fn xy_hit_of(rc: XYRect, ray: Ray) -> Option<HitInfo> {
    let (o, d) = (ray.origin, ray.dir);
    match rect_hit_of(rc.z as int, rc.x0 as int, rc.x1 as int, rc.y0 as int, rc.y1 as int, o.x as int, d.x as int, o.y as int, d.y as int, o.z as int, d.z as int) {
        None => None,
        Some(p) => Some(
            HitInfo {
                ip: Point { x: p.0 as i64, y: p.1 as i64, z: rc.z },
                norm: if d.z <= 0 && rc.z <= 0 {
                    Point { x: 0, y: 0, z: SCALE }
                } else {
                    Point { x: 0, y: 0, z: -SCALE as i64 }
                },
                hit_mat: rc.material,
            },
        ),
    }
}

/// What `XZRect::hits` returns. The normal is `-y` when the ray heads to lower `y`,
/// `+y` otherwise.
pub open spec fn xz_hit_of(rc: XZRect, ray: Ray) -> Option<HitInfo> {
    let (o, d) = (ray.origin, ray.dir);
    match rect_hit_of(rc.y as int, rc.x0 as int, rc.x1 as int, rc.z0 as int, rc.z1 as int, o.x as int, d.x as int, o.z as int, d.z as int, o.y as int, d.y as int) {
        None => None,
        Some(p) => Some(
            HitInfo {
                ip: Point { x: p.0 as i64, y: rc.y, z: p.1 as i64 },
                norm: if d.y <= 0 {
                    Point { x: 0, y: -SCALE as i64, z: 0 }
                } else {
                    Point { x: 0, y: SCALE, z: 0 }
                },
                hit_mat: rc.material,
            },
        ),
    }
}

/// What `YZRect::hits` returns. The normal is `-x` when the ray heads to lower `x`,
/// `+x` otherwise.
pub open spec fn yz_hit_of(rc: YZRect, ray: Ray) -> Option<HitInfo> {
    let (o, d) = (ray.origin, ray.dir);
    match rect_hit_of(rc.x as int, rc.y0 as int, rc.y1 as int, rc.z0 as int, rc.z1 as int, o.y as int, d.y as int, o.z as int, d.z as int, o.x as int, d.x as int) {
        None => None,
        Some(p) => Some(
            HitInfo {
                ip: Point { x: rc.x, y: p.0 as i64, z: p.1 as i64 },
                norm: if d.x <= 0 {
                    Point { x: -SCALE as i64, y: 0, z: 0 }
                } else {
                    Point { x: SCALE, y: 0, z: 0 }
                },
                hit_mat: rc.material,
            },
        ),
    }
}

impl XYRect {
    /// Plane and bounds within range.
    pub open spec fn wf(self) -> bool {
        all_in_world(seq![self.z as int, self.x0 as int, self.x1 as int, self.y0 as int, self.y1 as int])
            && self.material.wf()
    }

    /// A `width` by `height` rectangle centered on the z axis; half-extents are rounded down.
    pub fn gen_z_rect(zz: i64, width: i64, height: i64) -> (r: XYRect)
        requires
            -LIMIT <= zz <= LIMIT,
            0 <= width <= 2 * LIMIT,
            0 <= height <= 2 * LIMIT,
        ensures
            r.z == zz,
            r.x1 == width / 2 && r.x0 == -r.x1,
            r.y1 == height / 2 && r.y0 == -r.y1,
            r.material == Material::default_spec(),
            r.wf(),
    {
        let hw = width / 2;
        let hh = height / 2;
        XYRect::gen(zz, -hw, hw, -hh, hh)
    }

    /// The rectangle `z = zz, xl <= x <= xr, yb <= y <= yt` with the default material.
    pub fn gen(zz: i64, xl: i64, xr: i64, yb: i64, yt: i64) -> (r: XYRect)
        requires
            all_in_world(seq![zz as int, xl as int, xr as int, yb as int, yt as int]),
        ensures
            r == (XYRect { z: zz, x0: xl, x1: xr, y0: yb, y1: yt, material: Material::default_spec() }),
            r.wf(),
    {
        let m = Material::default();
        XYRect { z: zz, x0: xl, x1: xr, y0: yb, y1: yt, material: m }
    }

    /// Intersection of the ray with the rectangle.
    pub fn hits(&self, ray: &Ray) -> (res: Option<HitInfo>)
        requires
            self.wf(),
            ray_wf(*ray),
        ensures
            res == xy_hit_of(*self, *ray),
    {
        let o = ray.origin;
        let d = ray.dir;
        let ghost w = seq![self.z as int, self.x0 as int, self.x1 as int, self.y0 as int, self.y1 as int];
        assert(w[0] == self.z && w[1] == self.x0 && w[2] == self.x1 && w[3] == self.y0 && w[4] == self.y1);
        let h = rect_hit(self.z, self.x0, self.x1, self.y0, self.y1, o.x, d.x, o.y, d.y, o.z, d.z);
        match h {
            None => None,
            Some((x, y)) => {
                let norm = if d.z <= 0 && self.z <= 0 {
                    Point { x: 0, y: 0, z: SCALE }
                } else {
                    Point { x: 0, y: 0, z: -SCALE }
                };
                Some(HitInfo { ip: Point { x, y, z: self.z }, norm, hit_mat: self.material })
            },
        }
    }

    /// A point on the plane of the rectangle.
    pub fn get_pos(&self) -> (r: Point)
        ensures
            r == (Point { x: 0, y: 0, z: self.z }),
    {
        Point { x: 0, y: 0, z: self.z }
    }
}

impl XZRect {
    /// Plane and bounds within range.
    pub open spec fn wf(self) -> bool {
        all_in_world(seq![self.y as int, self.x0 as int, self.x1 as int, self.z0 as int, self.z1 as int])
            && self.material.wf()
    }

    /// A `width` (along x) by `height` (along z) rectangle centered on the y axis;
    /// half-extents are rounded down.
    pub fn gen_y_rect(yy: i64, width: i64, height: i64) -> (r: XZRect)
        requires
            -LIMIT <= yy <= LIMIT,
            0 <= width <= 2 * LIMIT,
            0 <= height <= 2 * LIMIT,
        ensures
            r.y == yy,
            r.x1 == width / 2 && r.x0 == -r.x1,
            r.z1 == height / 2 && r.z0 == -r.z1,
            r.material == Material::default_spec(),
            r.wf(),
    {
        let hw = width / 2;
        let hh = height / 2;
        XZRect::gen(yy, -hw, hw, -hh, hh)
    }

    /// The rectangle `y = yy, xl <= x <= xr, zn <= z <= zf` with the default material.
    pub fn gen(yy: i64, xl: i64, xr: i64, zn: i64, zf: i64) -> (r: XZRect)
        requires
            all_in_world(seq![yy as int, xl as int, xr as int, zn as int, zf as int]),
        ensures
            r == (XZRect { y: yy, x0: xl, x1: xr, z0: zn, z1: zf, material: Material::default_spec() }),
            r.wf(),
    {
        let m = Material::default();
        XZRect { y: yy, x0: xl, x1: xr, z0: zn, z1: zf, material: m }
    }

    /// Intersection of the ray with the rectangle.
    pub fn hits(&self, ray: &Ray) -> (res: Option<HitInfo>)
        requires
            self.wf(),
            ray_wf(*ray),
        ensures
            res == xz_hit_of(*self, *ray),
    {
        let o = ray.origin;
        let d = ray.dir;
        let ghost w = seq![self.y as int, self.x0 as int, self.x1 as int, self.z0 as int, self.z1 as int];
        assert(w[0] == self.y && w[1] == self.x0 && w[2] == self.x1 && w[3] == self.z0 && w[4] == self.z1);
        let h = rect_hit(self.y, self.x0, self.x1, self.z0, self.z1, o.x, d.x, o.z, d.z, o.y, d.y);
        match h {
            None => None,
            Some((x, z)) => {
                let norm = if d.y <= 0 {
                    Point { x: 0, y: -SCALE, z: 0 }
                } else {
                    Point { x: 0, y: SCALE, z: 0 }
                };
                Some(HitInfo { ip: Point { x, y: self.y, z }, norm, hit_mat: self.material })
            },
        }
    }

    /// A point on the plane of the rectangle.
    pub fn get_pos(&self) -> (r: Point)
        ensures
            r == (Point { x: 0, y: self.y, z: 0 }),
    {
        Point { x: 0, y: self.y, z: 0 }
    }
}

impl YZRect {
    /// Plane and bounds within range.
    pub open spec fn wf(self) -> bool {
        all_in_world(seq![self.x as int, self.y0 as int, self.y1 as int, self.z0 as int, self.z1 as int])
            && self.material.wf()
    }

    /// A `width` (along y) by `height` (along z) rectangle centered on the x axis;
    /// half-extents are rounded down.
    pub fn gen_x_rect(xx: i64, width: i64, height: i64) -> (r: YZRect)
        requires
            -LIMIT <= xx <= LIMIT,
            0 <= width <= 2 * LIMIT,
            0 <= height <= 2 * LIMIT,
        ensures
            r.x == xx,
            r.y1 == width / 2 && r.y0 == -r.y1,
            r.z1 == height / 2 && r.z0 == -r.z1,
            r.material == Material::default_spec(),
            r.wf(),
    {
        let hw = width / 2;
        let hh = height / 2;
        YZRect::gen(xx, -hw, hw, -hh, hh)
    }

    /// The rectangle `x = xx, yb <= y <= yt, zn <= z <= zf` with the default material.
    pub fn gen(xx: i64, yb: i64, yt: i64, zn: i64, zf: i64) -> (r: YZRect)
        requires
            all_in_world(seq![xx as int, yb as int, yt as int, zn as int, zf as int]),
        ensures
            r == (YZRect { x: xx, y0: yb, y1: yt, z0: zn, z1: zf, material: Material::default_spec() }),
            r.wf(),
    {
        let m = Material::default();
        YZRect { x: xx, y0: yb, y1: yt, z0: zn, z1: zf, material: m }
    }

    /// Intersection of the ray with the rectangle.
    pub fn hits(&self, ray: &Ray) -> (res: Option<HitInfo>)
        requires
            self.wf(),
            ray_wf(*ray),
        ensures
            res == yz_hit_of(*self, *ray),
    {
        let o = ray.origin;
        let d = ray.dir;
        let ghost w = seq![self.x as int, self.y0 as int, self.y1 as int, self.z0 as int, self.z1 as int];
        assert(w[0] == self.x && w[1] == self.y0 && w[2] == self.y1 && w[3] == self.z0 && w[4] == self.z1);
        let h = rect_hit(self.x, self.y0, self.y1, self.z0, self.z1, o.y, d.y, o.z, d.z, o.x, d.x);
        match h {
            None => None,
            Some((y, z)) => {
                let norm = if d.x <= 0 {
                    Point { x: -SCALE, y: 0, z: 0 }
                } else {
                    Point { x: SCALE, y: 0, z: 0 }
                };
                Some(HitInfo { ip: Point { x: self.x, y, z }, norm, hit_mat: self.material })
            },
        }
    }

    /// A point on the plane of the rectangle.
    pub fn get_pos(&self) -> (r: Point)
        ensures
            r == (Point { x: self.x, y: 0, z: 0 }),
    {
        Point { x: self.x, y: 0, z: 0 }
    }
}

/// An axis-aligned box, made of its six faces.
#[derive(Clone, Copy, Debug, PartialEq, Eq)]
pub struct AABox {
    pub min_extent: Point,
    pub max_extent: Point,
    pub material: Material,
    pub left: YZRect,
    pub right: YZRect,
    pub front: XYRect,
    pub back: XYRect,
    pub top: XZRect,
    pub bottom: XZRect,
}

/// The first of two hits that exists.
pub open spec fn first_of(a: Option<HitInfo>, b: Option<HitInfo>) -> Option<HitInfo> {
    if a is Some {
        a
    } else {
        b
    }
}

/// The first face hit in the order left, right, front, back, top, bottom.
pub open spec fn box_face_hit_of(bx: AABox, ray: Ray) -> Option<HitInfo> {
    first_of(
        yz_hit_of(bx.left, ray),
        first_of(
            yz_hit_of(bx.right, ray),
            first_of(
                xy_hit_of(bx.front, ray),
                first_of(xy_hit_of(bx.back, ray), first_of(xz_hit_of(bx.top, ray), xz_hit_of(bx.bottom, ray))),
            ),
        ),
    )
}

/// What `AABox::hits` returns: the first face hit, carrying the box's material.
pub open spec fn box_hit_of(bx: AABox, ray: Ray) -> Option<HitInfo> {
    match box_face_hit_of(bx, ray) {
        None => None,
        Some(h) => Some(HitInfo { ip: h.ip, norm: h.norm, hit_mat: bx.material }),
    }
}

/// `p` lies on one of the six faces of the box `[lo, hi]`, within that face's extent.
pub open spec fn on_box_face(lo: Point, hi: Point, p: Point) -> bool {
    ||| (p.x == lo.x || p.x == hi.x) && lo.y <= p.y <= hi.y && lo.z <= p.z <= hi.z
    ||| (p.y == lo.y || p.y == hi.y) && lo.x <= p.x <= hi.x && lo.z <= p.z <= hi.z
    ||| (p.z == lo.z || p.z == hi.z) && lo.x <= p.x <= hi.x && lo.y <= p.y <= hi.y
}

/// A hit on a z-plane rectangle lies on its plane, within its bounds.
pub proof fn lemma_xy_hit_on_rect(rc: XYRect, ray: Ray)
    requires
        rc.wf(),
        ray_wf(ray),
    ensures
        xy_hit_of(rc, ray) matches Some(h) ==> h.ip.z == rc.z && rc.x0 <= h.ip.x <= rc.x1 && rc.y0 <= h.ip.y <= rc.y1,
{
    let w = seq![rc.z as int, rc.x0 as int, rc.x1 as int, rc.y0 as int, rc.y1 as int];
    assert(w[1] == rc.x0 && w[2] == rc.x1 && w[3] == rc.y0 && w[4] == rc.y1);
}

/// A hit on a y-plane rectangle lies on its plane, within its bounds.
pub proof fn lemma_xz_hit_on_rect(rc: XZRect, ray: Ray)
    requires
        rc.wf(),
        ray_wf(ray),
    ensures
        xz_hit_of(rc, ray) matches Some(h) ==> h.ip.y == rc.y && rc.x0 <= h.ip.x <= rc.x1 && rc.z0 <= h.ip.z <= rc.z1,
{
    let w = seq![rc.y as int, rc.x0 as int, rc.x1 as int, rc.z0 as int, rc.z1 as int];
    assert(w[1] == rc.x0 && w[2] == rc.x1 && w[3] == rc.z0 && w[4] == rc.z1);
}

/// A hit on an x-plane rectangle lies on its plane, within its bounds.
pub proof fn lemma_yz_hit_on_rect(rc: YZRect, ray: Ray)
    requires
        rc.wf(),
        ray_wf(ray),
    ensures
        yz_hit_of(rc, ray) matches Some(h) ==> h.ip.x == rc.x && rc.y0 <= h.ip.y <= rc.y1 && rc.z0 <= h.ip.z <= rc.z1,
{
    let w = seq![rc.x as int, rc.y0 as int, rc.y1 as int, rc.z0 as int, rc.z1 as int];
    assert(w[1] == rc.y0 && w[2] == rc.y1 && w[3] == rc.z0 && w[4] == rc.z1);
}

/// The plane of a well-formed z-plane rectangle lies in range.
pub proof fn lemma_rect_wf_xy(rc: XYRect)
    requires
        rc.wf(),
    ensures
        -LIMIT <= rc.z <= LIMIT,
{
    let w = seq![rc.z as int, rc.x0 as int, rc.x1 as int, rc.y0 as int, rc.y1 as int];
    assert(w[0] == rc.z);
}

/// The plane of a well-formed y-plane rectangle lies in range.
pub proof fn lemma_rect_wf_xz(rc: XZRect)
    requires
        rc.wf(),
    ensures
        -LIMIT <= rc.y <= LIMIT,
{
    let w = seq![rc.y as int, rc.x0 as int, rc.x1 as int, rc.z0 as int, rc.z1 as int];
    assert(w[0] == rc.y);
}

/// The plane of a well-formed x-plane rectangle lies in range.
pub proof fn lemma_rect_wf_yz(rc: YZRect)
    requires
        rc.wf(),
    ensures
        -LIMIT <= rc.x <= LIMIT,
{
    let w = seq![rc.x as int, rc.y0 as int, rc.y1 as int, rc.z0 as int, rc.z1 as int];
    assert(w[0] == rc.x);
}

impl AABox {
    /// Corners within range and the six faces spanning them.
    pub open spec fn wf(self) -> bool {
        let (lo, hi) = (self.min_extent, self.max_extent);
        &&& lo.in_world() && hi.in_world() && self.material.wf()
        &&& self.left == YZRect { x: lo.x, y0: lo.y, y1: hi.y, z0: lo.z, z1: hi.z, material: self.left.material }
        &&& self.right == YZRect { x: hi.x, y0: lo.y, y1: hi.y, z0: lo.z, z1: hi.z, material: self.right.material }
        &&& self.front == XYRect { z: lo.z, x0: lo.x, x1: hi.x, y0: lo.y, y1: hi.y, material: self.front.material }
        &&& self.back == XYRect { z: hi.z, x0: lo.x, x1: hi.x, y0: lo.y, y1: hi.y, material: self.back.material }
        &&& self.top == XZRect { y: hi.y, x0: lo.x, x1: hi.x, z0: lo.z, z1: hi.z, material: self.top.material }
        &&& self.bottom == XZRect { y: lo.y, x0: lo.x, x1: hi.x, z0: lo.z, z1: hi.z, material: self.bottom.material }
        &&& self.left.wf() && self.right.wf() && self.front.wf() && self.back.wf() && self.top.wf() && self.bottom.wf()
    }

    /// The box between two corners, with the default material.
    pub fn gen(min_corner: Point, max_corner: Point) -> (r: AABox)
        requires
            min_corner.in_world(),
            max_corner.in_world(),
        ensures
            r.wf(),
            r.min_extent == min_corner,
            r.max_extent == max_corner,
            r.material == Material::default_spec(),
            r.left.material == Material::default_spec() && r.right.material == Material::default_spec(),
            r.front.material == Material::default_spec() && r.back.material == Material::default_spec(),
            r.top.material == Material::default_spec() && r.bottom.material == Material::default_spec(),
    {
        let (lo, hi) = (min_corner, max_corner);
        let left = YZRect::gen(lo.x, lo.y, hi.y, lo.z, hi.z);
        let right = YZRect::gen(hi.x, lo.y, hi.y, lo.z, hi.z);
        let front = XYRect::gen(lo.z, lo.x, hi.x, lo.y, hi.y);
        let back = XYRect::gen(hi.z, lo.x, hi.x, lo.y, hi.y);
        let top = XZRect::gen(hi.y, lo.x, hi.x, lo.z, hi.z);
        let bottom = XZRect::gen(lo.y, lo.x, hi.x, lo.z, hi.z);
        let material = Material::default();
        AABox { min_extent: lo, max_extent: hi, material, left, right, front, back, top, bottom }
    }

    /// The first face that the ray hits, in the order left, right, front, back, top, bottom
    /// (not necessarily the nearest). A hit lies on a face of the box, within its extent.
    pub fn hits(&self, ray: &Ray) -> (res: Option<HitInfo>)
        requires
            self.wf(),
            ray_wf(*ray),
        ensures
            res == box_hit_of(*self, *ray),
            res matches Some(h) ==> on_box_face(self.min_extent, self.max_extent, h.ip),
    {
        proof {
            lemma_yz_hit_on_rect(self.left, *ray);
            lemma_yz_hit_on_rect(self.right, *ray);
            lemma_xy_hit_on_rect(self.front, *ray);
            lemma_xy_hit_on_rect(self.back, *ray);
            lemma_xz_hit_on_rect(self.top, *ray);
            lemma_xz_hit_on_rect(self.bottom, *ray);
        }
        let mut face = self.left.hits(ray);
        if face.is_none() {
            face = self.right.hits(ray);
        }
        if face.is_none() {
            face = self.front.hits(ray);
        }
        if face.is_none() {
            face = self.back.hits(ray);
        }
        if face.is_none() {
            face = self.top.hits(ray);
        }
        if face.is_none() {
            face = self.bottom.hits(ray);
        }
        match face {
            None => None,
            Some(h) => Some(HitInfo { ip: h.ip, norm: h.norm, hit_mat: self.material }),
        }
    }

    /// The origin, standing for the box.
    pub fn get_pos(&self) -> (r: Point)
        ensures
            r == (Point { x: 0, y: 0, z: 0 }),
    {
        Point { x: 0, y: 0, z: 0 }
    }
}

/// Stretching the direction by `k` multiplies the quarter discriminant by `k^2`.
pub proof fn lemma_disc_stretched(s: Sphere, ray: Ray)
    requires
        ray_wf(ray),
    ensures
        sphere_disc(s, stretched(ray)) == stretch_factor(ray.dir) * stretch_factor(ray.dir) * sphere_disc(s, ray),
        sphere_oc(s, stretched(ray)) == sphere_oc(s, ray),
{
    lemma_stretched(ray);
    let k = stretch_factor(ray.dir);
    let d = ray.dir;
    let e = stretched(ray).dir;
    let oc = sphere_oc(s, ray);
    let b = dot_of(d, oc);
    let q = norm2(d);
    let c = norm2(oc);
    let rr = s.r * s.r;
    lemma_dot_scaled(d.x as int, d.y as int, d.z as int, oc.x as int, oc.y as int, oc.z as int, k);
    assert(dot_of(e, oc) == k * b);
    assert(norm2(e) == k * k * q);
    assert((k * b) * (k * b) - (k * k * q) * (c - rr) == k * k * (b * b - q * (c - rr))) by (nonlinear_arith);
}

/// A ray whose line passes farther from the center than the radius misses the sphere:
/// the squared distance from the center to the line is `(|oc|^2 |d|^2 - (d.oc)^2) / |d|^2`.
pub proof fn lemma_sphere_miss(s: Sphere, ray: Ray)
    requires
        ray_wf(ray),
        norm2(ray.dir) > 0,
        norm2(sphere_oc(s, ray)) * norm2(ray.dir) - dot_of(ray.dir, sphere_oc(s, ray)) * dot_of(ray.dir, sphere_oc(s, ray))
            > s.r * s.r * norm2(ray.dir),
    ensures
        sphere_hit_of(s, ray) is None,
{
    let q = norm2(ray.dir);
    let c = norm2(sphere_oc(s, ray));
    let rr = s.r * s.r;
    assert(q * (c - rr) == c * q - rr * q) by (nonlinear_arith);
    lemma_disc_stretched(s, ray);
    lemma_stretched(ray);
    let k = stretch_factor(ray.dir);
    assert(k * k * sphere_disc(s, ray) < 0) by (nonlinear_arith)
        requires
            k >= 1,
            sphere_disc(s, ray) < 0,
    ;
}

/// Cauchy-Schwarz for three components: `(d.o)^2 <= |d|^2 |o|^2`.
pub proof fn lemma_cauchy_schwarz(d: Point, o: Point)
    ensures
        dot_of(d, o) * dot_of(d, o) <= norm2(d) * norm2(o),
{
    lemma_cauchy_schwarz_ints(d.x as int, d.y as int, d.z as int, o.x as int, o.y as int, o.z as int);
}

/// `a^2 (b1^2 + b2^2 + b3^2) = (a b1)^2 + (a b2)^2 + (a b3)^2`.
pub proof fn lemma_row_squares(a: int, b1: int, b2: int, b3: int)
    ensures
        a * a * (b1 * b1 + b2 * b2 + b3 * b3) == (a * b1) * (a * b1) + (a * b2) * (a * b2) + (a * b3) * (a * b3),
{
    assert(a * a * (b1 * b1 + b2 * b2 + b3 * b3) == a * a * (b1 * b1) + a * a * (b2 * b2) + a * a * (b3 * b3))
        by (nonlinear_arith);
    assert(a * a * (b1 * b1) == (a * b1) * (a * b1)) by (nonlinear_arith);
    assert(a * a * (b2 * b2) == (a * b2) * (a * b2)) by (nonlinear_arith);
    assert(a * a * (b3 * b3) == (a * b3) * (a * b3)) by (nonlinear_arith);
}

/// Lagrange's identity gives `(a.b)^2 <= |a|^2 |b|^2`.
pub proof fn lemma_cauchy_schwarz_ints(a1: int, a2: int, a3: int, b1: int, b2: int, b3: int)
    ensures
        (a1 * b1 + a2 * b2 + a3 * b3) * (a1 * b1 + a2 * b2 + a3 * b3) <= (a1 * a1 + a2 * a2 + a3 * a3) * (b1 * b1 + b2 * b2 + b3 * b3),
{
    let (x11, x12, x13) = (a1 * b1, a1 * b2, a1 * b3);
    let (x21, x22, x23) = (a2 * b1, a2 * b2, a2 * b3);
    let (x31, x32, x33) = (a3 * b1, a3 * b2, a3 * b3);
    assert((a1 * a1 + a2 * a2 + a3 * a3) * (b1 * b1 + b2 * b2 + b3 * b3)
        == a1 * a1 * (b1 * b1 + b2 * b2 + b3 * b3) + a2 * a2 * (b1 * b1 + b2 * b2 + b3 * b3) + a3 * a3 * (b1 * b1 + b2 * b2 + b3 * b3))
        by (nonlinear_arith);
    lemma_row_squares(a1, b1, b2, b3);
    lemma_row_squares(a2, b1, b2, b3);
    lemma_row_squares(a3, b1, b2, b3);
    assert(x11 * x22 == x12 * x21) by (nonlinear_arith)
        requires
            x11 == a1 * b1,
            x22 == a2 * b2,
            x12 == a1 * b2,
            x21 == a2 * b1,
    ;
    assert(x11 * x33 == x13 * x31) by (nonlinear_arith)
        requires
            x11 == a1 * b1,
            x33 == a3 * b3,
            x13 == a1 * b3,
            x31 == a3 * b1,
    ;
    assert(x22 * x33 == x23 * x32) by (nonlinear_arith)
        requires
            x22 == a2 * b2,
            x33 == a3 * b3,
            x23 == a2 * b3,
            x32 == a3 * b2,
    ;
    assert((x11 + x22 + x33) * (x11 + x22 + x33)
        == x11 * x11 + x22 * x22 + x33 * x33 + 2 * (x11 * x22) + 2 * (x11 * x33) + 2 * (x22 * x33)) by (nonlinear_arith);
    assert((x12 - x21) * (x12 - x21) == x12 * x12 + x21 * x21 - 2 * (x12 * x21)) by (nonlinear_arith);
    assert((x13 - x31) * (x13 - x31) == x13 * x13 + x31 * x31 - 2 * (x13 * x31)) by (nonlinear_arith);
    assert((x23 - x32) * (x23 - x32) == x23 * x23 + x32 * x32 - 2 * (x23 * x32)) by (nonlinear_arith);
    assert((x12 - x21) * (x12 - x21) >= 0) by (nonlinear_arith);
    assert((x13 - x31) * (x13 - x31) >= 0) by (nonlinear_arith);
    assert((x23 - x32) * (x23 - x32) >= 0) by (nonlinear_arith);
}

/// Every sphere hit lies on the sphere up to rounding.
///
/// With `d` the stretched direction, `q = |d|^2`, `oc = O - C` and `n` the chosen root's
/// numerator, the exact point is `O + d n / q`; its offsets from the center scaled by `q`,
/// `E = q oc + d n`, satisfy `|E|^2 <= (q r)^2` and `(q r)^2 - |E|^2 < q^2 SCALE^2 / 400`
/// (the squared distance is within `0.0025` world units squared of `r^2`, the tangent
/// case's chord midpoint included), and within `5 q^2` (five units squared) for a
/// non-tangent hit. Each coordinate of the hit point is `C + E / q` rounded down.
pub proof fn lemma_sphere_hit_on_surface(s: Sphere, ray: Ray)
    requires
        s.wf(),
        ray_wf(ray),
    ensures
        sphere_hit_of(s, ray) matches Some(h) ==> ({
            let long = stretched(ray);
            let d = long.dir;
            let oc = sphere_oc(s, ray);
            let q = norm2(d);
            let n = sphere_root(s, long)->Some_0;
            let ex = q * oc.x + d.x * n;
            let ey = q * oc.y + d.y * n;
            let ez = q * oc.z + d.z * n;
            let qr2 = (q * s.r) * (q * s.r);
            let e2 = ex * ex + ey * ey + ez * ez;
            &&& e2 <= qr2
            &&& 400 * (qr2 - e2) < q * q * (SCALE * SCALE)
            &&& 400 * sphere_disc(s, long) >= q * (SCALE * SCALE) ==> qr2 - e2 <= 5 * (q * q)
            &&& q * (h.ip.x - s.cen.x) <= ex < q * (h.ip.x - s.cen.x) + q
            &&& q * (h.ip.y - s.cen.y) <= ey < q * (h.ip.y - s.cen.y) + q
            &&& q * (h.ip.z - s.cen.z) <= ez < q * (h.ip.z - s.cen.z) + q
        }),
{
    if sphere_hit_of(s, ray) is Some {
        lemma_disc_stretched(s, ray);
        lemma_stretched(ray);
        let long = stretched(ray);
        let d = long.dir;
        let o = ray.origin;
        let oc = sphere_oc(s, ray);
        let q = norm2(d);
        let b = dot_of(d, oc);
        let r = s.r as int;
        let dd = sphere_disc(s, long);
        let l = LIMIT as int;
        assert(dd > 0);
        lemma_norm2_nonneg(d);
        if q == 0 {
            assert(b == 0) by (nonlinear_arith)
                requires
                    d.x == 0 && d.y == 0 && d.z == 0,
                    b == d.x * oc.x + d.y * oc.y + d.z * oc.z,
            ;
            assert(dd == 0) by (nonlinear_arith)
                requires
                    b == 0,
                    q == 0,
                    dd == b * b - q * (norm2(oc) - r * r),
            ;
        }
        assert(q > 0);
        lemma_norm2_nonneg(ray.dir);
        if norm2(ray.dir) == 0 {
            assert(d.x == 0 && d.y == 0 && d.z == 0) by (nonlinear_arith)
                requires
                    ray.dir.x == 0 && ray.dir.y == 0 && ray.dir.z == 0,
                    d.x == ray.dir.x * stretch_factor(ray.dir),
                    d.y == ray.dir.y * stretch_factor(ray.dir),
                    d.z == ray.dir.z * stretch_factor(ray.dir),
            ;
        }
        assert(q >= (l / 2) * (l / 2));
        lemma_bounded_sum(o, s.cen, l, l);
        let sq = if 400 * dd < q * (SCALE * SCALE) { 0 } else { isqrt_of(dd as nat) as int };
        crate::fixed::lemma_isqrt_of(dd as nat);
        assert(sphere_root(s, long) == Some(sq - b));
        lemma_root_in_ball(oc, d, r, sq);
        let n = sq - b;
        let ex = q * oc.x + d.x * n;
        let ey = q * oc.y + d.y * n;
        let ez = q * oc.z + d.z * n;
        let qr2 = (q * r) * (q * r);
        let e2 = ex * ex + ey * ey + ez * ez;
        lemma_square_of_product(q, r);
        assert(qr2 - e2 == q * (dd - sq * sq)) by (nonlinear_arith)
            requires
                e2 == q * (q * norm2(oc) + sq * sq - b * b),
                dd == b * b - q * (norm2(oc) - r * r),
                qr2 == q * (q * (r * r)),
        ;
        if 400 * dd < q * (SCALE * SCALE) {
            assert(400 * (qr2 - e2) < q * q * (SCALE * SCALE)) by (nonlinear_arith)
                requires
                    qr2 - e2 == q * (dd - sq * sq),
                    sq == 0,
                    400 * dd < q * (SCALE * SCALE),
                    q > 0,
            ;
        } else {
            lemma_cauchy_schwarz(d, oc);
            assert(dd <= q * (r * r)) by (nonlinear_arith)
                requires
                    dd == b * b - q * (norm2(oc) - r * r),
                    b * b <= q * norm2(oc),
            ;
            assert(r * r <= l * l) by (nonlinear_arith)
                requires
                    0 <= r <= l,
            ;
            assert(sq * sq <= 4 * (q * q)) by (nonlinear_arith)
                requires
                    sq * sq <= dd,
                    dd <= q * (r * r),
                    r * r <= l * l,
                    l * l == 4 * ((l / 2) * (l / 2)),
                    q >= (l / 2) * (l / 2),
                    q > 0,
            ;
            assert(sq <= 2 * q) by (nonlinear_arith)
                requires
                    sq * sq <= 4 * (q * q),
                    sq >= 0,
                    q > 0,
            ;
            assert(qr2 - e2 <= 5 * (q * q)) by (nonlinear_arith)
                requires
                    qr2 - e2 == q * (dd - sq * sq),
                    dd < (sq + 1) * (sq + 1),
                    sq <= 2 * q,
                    sq >= 0,
                    q > 0,
            ;
            assert(400 * (qr2 - e2) < q * q * (SCALE * SCALE)) by (nonlinear_arith)
                requires
                    qr2 - e2 <= 5 * (q * q),
                    q > 0,
            ;
        }
        assert(q * r >= 0) by (nonlinear_arith)
            requires
                q > 0,
                r >= 0,
        ;
        assert(ex * ex <= qr2 && ey * ey <= qr2 && ez * ez <= qr2) by (nonlinear_arith)
            requires
                e2 == ex * ex + ey * ey + ez * ez,
                e2 <= qr2,
        ;
        lemma_surface_coord(ex, q, r, oc.x as int, d.x as int, n);
        lemma_surface_coord(ey, q, r, oc.y as int, d.y as int, n);
        lemma_surface_coord(ez, q, r, oc.z as int, d.z as int, n);
    }
}

/// One coordinate of the surface law: `oc + d n / q == E / q`, which lies in `[-r, r]`, and
/// `q (E / q) <= E < q (E / q) + q`.
pub proof fn lemma_surface_coord(e: int, q: int, r: int, oc: int, d: int, n: int)
    requires
        q > 0,
        r >= 0,
        e == q * oc + d * n,
        e * e <= (q * r) * (q * r),
    ensures
        oc + d * n / q == e / q,
        -r <= e / q <= r,
        q * (e / q) <= e < q * (e / q) + q,
{
    assert(q * r >= 0) by (nonlinear_arith)
        requires
            q > 0,
            r >= 0,
    ;
    lemma_square_bound(e, q * r);
    assert(q * r == r * q) by (nonlinear_arith);
    lemma_div_bound(e, q, r);
    lemma_div_shift(oc, d * n, q);
    vstd::arithmetic::div_mod::lemma_fundamental_div_mod(e, q);
    vstd::arithmetic::div_mod::lemma_mod_bound(e, q);
}

/// Shifting a rectangle's in-plane bounds and the ray's origin by the same in-plane offset
/// shifts the in-plane hit coordinates by that offset and keeps hit or miss.
pub proof fn lemma_rect_translate(
    plane: int,
    lo_a: int,
    hi_a: int,
    lo_b: int,
    hi_b: int,
    o_a: int,
    d_a: int,
    o_b: int,
    d_b: int,
    o_n: int,
    d_n: int,
    ta: int,
    tb: int,
)
    ensures
        ({
            let h = rect_hit_of(plane, lo_a, hi_a, lo_b, hi_b, o_a, d_a, o_b, d_b, o_n, d_n);
            let g = rect_hit_of(plane, lo_a + ta, hi_a + ta, lo_b + tb, hi_b + tb, o_a + ta, d_a, o_b + tb, d_b, o_n, d_n);
            &&& (h is Some <==> g is Some)
            &&& h matches Some(p) ==> g == Some((p.0 + ta, p.1 + tb))
        }),
{
}

/// Rectangle on a z-plane: moving the rectangle and the ray's origin by `(tx, ty, 0)` keeps
/// hit or miss, and moves the hit point by the same offset.
pub proof fn lemma_xy_translate(rc: XYRect, ray: Ray, moved: XYRect, moved_ray: Ray, tx: int, ty: int)
    requires
        rc.wf(),
        ray_wf(ray),
        moved.wf(),
        ray_wf(moved_ray),
        moved.z == rc.z && moved.material == rc.material,
        moved.x0 == rc.x0 + tx && moved.x1 == rc.x1 + tx && moved.y0 == rc.y0 + ty && moved.y1 == rc.y1 + ty,
        moved_ray.dir == ray.dir,
        moved_ray.origin.x == ray.origin.x + tx && moved_ray.origin.y == ray.origin.y + ty,
        moved_ray.origin.z == ray.origin.z,
    ensures
        xy_hit_of(moved, moved_ray) is Some <==> xy_hit_of(rc, ray) is Some,
        xy_hit_of(rc, ray) matches Some(h) ==> xy_hit_of(moved, moved_ray) matches Some(g) && g.ip.x == h.ip.x + tx
            && g.ip.y == h.ip.y + ty && g.ip.z == h.ip.z,
{
    let (o, d) = (ray.origin, ray.dir);
    let w = seq![rc.z as int, rc.x0 as int, rc.x1 as int, rc.y0 as int, rc.y1 as int];
    assert(w[1] == rc.x0 && w[2] == rc.x1 && w[3] == rc.y0 && w[4] == rc.y1);
    let w2 = seq![moved.z as int, moved.x0 as int, moved.x1 as int, moved.y0 as int, moved.y1 as int];
    assert(w2[1] == moved.x0 && w2[2] == moved.x1 && w2[3] == moved.y0 && w2[4] == moved.y1);
    lemma_rect_translate(rc.z as int, rc.x0 as int, rc.x1 as int, rc.y0 as int, rc.y1 as int, o.x as int, d.x as int, o.y as int, d.y as int, o.z as int, d.z as int, tx, ty);
}

/// Rectangle on a y-plane: moving the rectangle and the ray's origin by `(tx, 0, tz)` keeps
/// hit or miss, and moves the hit point by the same offset.
pub proof fn lemma_xz_translate(rc: XZRect, ray: Ray, moved: XZRect, moved_ray: Ray, tx: int, tz: int)
    requires
        rc.wf(),
        ray_wf(ray),
        moved.wf(),
        ray_wf(moved_ray),
        moved.y == rc.y && moved.material == rc.material,
        moved.x0 == rc.x0 + tx && moved.x1 == rc.x1 + tx && moved.z0 == rc.z0 + tz && moved.z1 == rc.z1 + tz,
        moved_ray.dir == ray.dir,
        moved_ray.origin.x == ray.origin.x + tx && moved_ray.origin.z == ray.origin.z + tz,
        moved_ray.origin.y == ray.origin.y,
    ensures
        xz_hit_of(moved, moved_ray) is Some <==> xz_hit_of(rc, ray) is Some,
        xz_hit_of(rc, ray) matches Some(h) ==> xz_hit_of(moved, moved_ray) matches Some(g) && g.ip.x == h.ip.x + tx
            && g.ip.y == h.ip.y && g.ip.z == h.ip.z + tz,
{
    let (o, d) = (ray.origin, ray.dir);
    let w = seq![rc.y as int, rc.x0 as int, rc.x1 as int, rc.z0 as int, rc.z1 as int];
    assert(w[1] == rc.x0 && w[2] == rc.x1 && w[3] == rc.z0 && w[4] == rc.z1);
    let w2 = seq![moved.y as int, moved.x0 as int, moved.x1 as int, moved.z0 as int, moved.z1 as int];
    assert(w2[1] == moved.x0 && w2[2] == moved.x1 && w2[3] == moved.z0 && w2[4] == moved.z1);
    lemma_rect_translate(rc.y as int, rc.x0 as int, rc.x1 as int, rc.z0 as int, rc.z1 as int, o.x as int, d.x as int, o.z as int, d.z as int, o.y as int, d.y as int, tx, tz);
}

/// Rectangle on an x-plane: moving the rectangle and the ray's origin by `(0, ty, tz)` keeps
/// hit or miss, and moves the hit point by the same offset.
pub proof fn lemma_yz_translate(rc: YZRect, ray: Ray, moved: YZRect, moved_ray: Ray, ty: int, tz: int)
    requires
        rc.wf(),
        ray_wf(ray),
        moved.wf(),
        ray_wf(moved_ray),
        moved.x == rc.x && moved.material == rc.material,
        moved.y0 == rc.y0 + ty && moved.y1 == rc.y1 + ty && moved.z0 == rc.z0 + tz && moved.z1 == rc.z1 + tz,
        moved_ray.dir == ray.dir,
        moved_ray.origin.y == ray.origin.y + ty && moved_ray.origin.z == ray.origin.z + tz,
        moved_ray.origin.x == ray.origin.x,
    ensures
        yz_hit_of(moved, moved_ray) is Some <==> yz_hit_of(rc, ray) is Some,
        yz_hit_of(rc, ray) matches Some(h) ==> yz_hit_of(moved, moved_ray) matches Some(g) && g.ip.x == h.ip.x
            && g.ip.y == h.ip.y + ty && g.ip.z == h.ip.z + tz,
{
    let (o, d) = (ray.origin, ray.dir);
    let w = seq![rc.x as int, rc.y0 as int, rc.y1 as int, rc.z0 as int, rc.z1 as int];
    assert(w[1] == rc.y0 && w[2] == rc.y1 && w[3] == rc.z0 && w[4] == rc.z1);
    let w2 = seq![moved.x as int, moved.y0 as int, moved.y1 as int, moved.z0 as int, moved.z1 as int];
    assert(w2[1] == moved.y0 && w2[2] == moved.y1 && w2[3] == moved.z0 && w2[4] == moved.z1);
    lemma_rect_translate(rc.x as int, rc.y0 as int, rc.y1 as int, rc.z0 as int, rc.z1 as int, o.y as int, d.y as int, o.z as int, d.z as int, o.x as int, d.x as int, ty, tz);
}

/// The exact line of the ray meets the rectangle `n = plane, lo_a <= a <= hi_a,
/// lo_b <= b <= hi_b` (before any rounding): with `t = num / k`, `k > 0`, the exact in-plane
/// coordinates `o + t d` lie within the bounds.
pub open spec fn crosses_rect(
    plane: int,
    lo_a: int,
    hi_a: int,
    lo_b: int,
    hi_b: int,
    o_a: int,
    d_a: int,
    o_b: int,
    d_b: int,
    o_n: int,
    d_n: int,
) -> bool {
    d_n != 0 && {
        let num = if d_n > 0 { plane - o_n } else { o_n - plane };
        let k = if d_n > 0 { d_n } else { -d_n };
        &&& lo_a * k <= o_a * k + num * d_a <= hi_a * k
        &&& lo_b * k <= o_b * k + num * d_b <= hi_b * k
    }
}

/// Rounding down keeps an integer-bounded value in its bounds: `lo k <= o k + x <= hi k`
/// gives `lo <= o + x / k <= hi`.
pub proof fn lemma_floor_in_bounds(lo: int, hi: int, o: int, x: int, k: int)
    requires
        k > 0,
        lo * k <= o * k + x <= hi * k,
    ensures
        lo <= o + x / k <= hi,
{
    assert((lo - o) * k <= x && x <= (hi - o) * k) by (nonlinear_arith)
        requires
            lo * k <= o * k + x <= hi * k,
    ;
    vstd::arithmetic::div_mod::lemma_div_is_ordered((lo - o) * k, x, k);
    vstd::arithmetic::div_mod::lemma_div_is_ordered(x, (hi - o) * k, k);
    vstd::arithmetic::div_mod::lemma_div_multiples_vanish(lo - o, k);
    vstd::arithmetic::div_mod::lemma_div_multiples_vanish(hi - o, k);
    assert(k * (lo - o) == (lo - o) * k && k * (hi - o) == (hi - o) * k) by (nonlinear_arith);
}

/// A ray whose exact line meets a rectangle gets a hit from it.
pub proof fn lemma_crossing_hits_rect(
    plane: int,
    lo_a: int,
    hi_a: int,
    lo_b: int,
    hi_b: int,
    o_a: int,
    d_a: int,
    o_b: int,
    d_b: int,
    o_n: int,
    d_n: int,
)
    requires
        crosses_rect(plane, lo_a, hi_a, lo_b, hi_b, o_a, d_a, o_b, d_b, o_n, d_n),
    ensures
        rect_hit_of(plane, lo_a, hi_a, lo_b, hi_b, o_a, d_a, o_b, d_b, o_n, d_n) is Some,
{
    let num = if d_n > 0 { plane - o_n } else { o_n - plane };
    let k = if d_n > 0 { d_n } else { -d_n };
    lemma_floor_in_bounds(lo_a, hi_a, o_a, num * d_a, k);
    lemma_floor_in_bounds(lo_b, hi_b, o_b, num * d_b, k);
}

/// The exact line of the ray meets one of the six faces of the box within its extent.
pub open spec fn crosses_box(bx: AABox, ray: Ray) -> bool {
    let (lo, hi, o, d) = (bx.min_extent, bx.max_extent, ray.origin, ray.dir);
    ||| crosses_rect(lo.x as int, lo.y as int, hi.y as int, lo.z as int, hi.z as int, o.y as int, d.y as int, o.z as int, d.z as int, o.x as int, d.x as int)
    ||| crosses_rect(hi.x as int, lo.y as int, hi.y as int, lo.z as int, hi.z as int, o.y as int, d.y as int, o.z as int, d.z as int, o.x as int, d.x as int)
    ||| crosses_rect(lo.z as int, lo.x as int, hi.x as int, lo.y as int, hi.y as int, o.x as int, d.x as int, o.y as int, d.y as int, o.z as int, d.z as int)
    ||| crosses_rect(hi.z as int, lo.x as int, hi.x as int, lo.y as int, hi.y as int, o.x as int, d.x as int, o.y as int, d.y as int, o.z as int, d.z as int)
    ||| crosses_rect(hi.y as int, lo.x as int, hi.x as int, lo.z as int, hi.z as int, o.x as int, d.x as int, o.z as int, d.z as int, o.y as int, d.y as int)
    ||| crosses_rect(lo.y as int, lo.x as int, hi.x as int, lo.z as int, hi.z as int, o.x as int, d.x as int, o.z as int, d.z as int, o.y as int, d.y as int)
}

/// A ray whose exact line crosses the boundary of a box always gets a hit from it, and that
/// hit lies on one of the box's faces, within the face's extent.
pub proof fn lemma_box_crossing_hits(bx: AABox, ray: Ray)
    requires
        bx.wf(),
        ray_wf(ray),
        crosses_box(bx, ray),
    ensures
        box_hit_of(bx, ray) matches Some(h) && on_box_face(bx.min_extent, bx.max_extent, h.ip),
{
    let (lo, hi, o, d) = (bx.min_extent, bx.max_extent, ray.origin, ray.dir);
    if crosses_rect(lo.x as int, lo.y as int, hi.y as int, lo.z as int, hi.z as int, o.y as int, d.y as int, o.z as int, d.z as int, o.x as int, d.x as int) {
        lemma_crossing_hits_rect(lo.x as int, lo.y as int, hi.y as int, lo.z as int, hi.z as int, o.y as int, d.y as int, o.z as int, d.z as int, o.x as int, d.x as int);
    } else if crosses_rect(hi.x as int, lo.y as int, hi.y as int, lo.z as int, hi.z as int, o.y as int, d.y as int, o.z as int, d.z as int, o.x as int, d.x as int) {
        lemma_crossing_hits_rect(hi.x as int, lo.y as int, hi.y as int, lo.z as int, hi.z as int, o.y as int, d.y as int, o.z as int, d.z as int, o.x as int, d.x as int);
    } else if crosses_rect(lo.z as int, lo.x as int, hi.x as int, lo.y as int, hi.y as int, o.x as int, d.x as int, o.y as int, d.y as int, o.z as int, d.z as int) {
        lemma_crossing_hits_rect(lo.z as int, lo.x as int, hi.x as int, lo.y as int, hi.y as int, o.x as int, d.x as int, o.y as int, d.y as int, o.z as int, d.z as int);
    } else if crosses_rect(hi.z as int, lo.x as int, hi.x as int, lo.y as int, hi.y as int, o.x as int, d.x as int, o.y as int, d.y as int, o.z as int, d.z as int) {
        lemma_crossing_hits_rect(hi.z as int, lo.x as int, hi.x as int, lo.y as int, hi.y as int, o.x as int, d.x as int, o.y as int, d.y as int, o.z as int, d.z as int);
    } else if crosses_rect(hi.y as int, lo.x as int, hi.x as int, lo.z as int, hi.z as int, o.x as int, d.x as int, o.z as int, d.z as int, o.y as int, d.y as int) {
        lemma_crossing_hits_rect(hi.y as int, lo.x as int, hi.x as int, lo.z as int, hi.z as int, o.x as int, d.x as int, o.z as int, d.z as int, o.y as int, d.y as int);
    } else {
        lemma_crossing_hits_rect(lo.y as int, lo.x as int, hi.x as int, lo.z as int, hi.z as int, o.x as int, d.x as int, o.z as int, d.z as int, o.y as int, d.y as int);
    }
    lemma_yz_hit_on_rect(bx.left, ray);
    lemma_yz_hit_on_rect(bx.right, ray);
    lemma_xy_hit_on_rect(bx.front, ray);
    lemma_xy_hit_on_rect(bx.back, ray);
    lemma_xz_hit_on_rect(bx.top, ray);
    lemma_xz_hit_on_rect(bx.bottom, ray);
}

} // verus!
