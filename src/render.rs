//! Frame assembly: one ray per pixel, the nearest hit, its shade.
use vstd::prelude::*;

use crate::camera::Camera;
use crate::fixed::{fdiv, lemma_div_bound, lemma_mul_bound};
use crate::geometry::ray_wf;
use crate::hittable::{HitInfo, Hittable, hit_in_range, hit_of};
use crate::ray::Ray;
use crate::shading::{Color, MAX_LIGHTS, PointLight, phong_single_src, shade_of};
use crate::vmaths::{LIMIT, Point, lemma_bounded_sum, lemma_dot_bound, minus_of, norm2};

verus! {

/// Largest image width or height.
pub const MAX_DIM: usize = 0x4000;

/// The color of a pixel whose ray hits nothing.
pub open spec fn background() -> Color {
    Color { r: 0, g: 0, b: 0 }
}

/// Squared distance between two points.
pub open spec fn dist2(a: Point, b: Point) -> int {
    (a.x - b.x) * (a.x - b.x) + (a.y - b.y) * (a.y - b.y) + (a.z - b.z) * (a.z - b.z)
}

/// The hit nearest to `cam_pos` among the primitives, the earliest one on ties.
pub open spec fn closest_of(scene: Seq<Hittable>, ray: Ray, cam_pos: Point) -> Option<HitInfo>
    decreases scene.len(),
{
    if scene.len() == 0 {
        None
    } else {
        let best = closest_of(scene.drop_last(), ray, cam_pos);
        match hit_of(scene.last(), ray) {
            None => best,
            Some(h) => match best {
                None => Some(h),
                Some(b) => if dist2(h.ip, cam_pos) < dist2(b.ip, cam_pos) {
                    Some(h)
                } else {
                    best
                },
            },
        }
    }
}

/// Every primitive of the scene is well formed.
pub open spec fn scene_wf(scene: Seq<Hittable>) -> bool {
    forall|i: int| 0 <= i < scene.len() ==> (#[trigger] scene[i]).wf()
}

/// Every light is well formed, and there are not too many.
pub open spec fn lights_wf(lights: Seq<PointLight>) -> bool {
    lights.len() <= MAX_LIGHTS && forall|i: int| 0 <= i < lights.len() ==> (#[trigger] lights[i]).wf()
}

/// Squared distance from the camera to a hit point.
fn dist2_exec(a: Point, cam_pos: Point) -> (r: i128)
    requires
        crate::vmaths::bounded(a, 2 * LIMIT),
        cam_pos.in_world(),
    ensures
        r == dist2(a, cam_pos),
{
    proof {
        lemma_bounded_sum(a, cam_pos, 2 * LIMIT, LIMIT as int);
    }
    let d = a.minus(cam_pos);
    d.dot(d)
}

/// The hit nearest to `cam_pos`, compared by distance from `cam_pos` to the hit point.
/// No hit is nearer than the result, and there is a result exactly when some primitive is hit.
pub fn closest_hit(scene: &Vec<Hittable>, ray: &Ray, cam_pos: Point) -> (r: Option<HitInfo>)
    requires
        scene_wf(scene@),
        ray_wf(*ray),
        cam_pos.in_world(),
    ensures
        r == closest_of(scene@, *ray, cam_pos),
        r matches Some(h) ==> hit_in_range(h),
        r is None <==> forall|i: int| 0 <= i < scene.len() ==> hit_of(#[trigger] scene[i], *ray) is None,
        r matches Some(b) ==> forall|i: int|
            0 <= i < scene.len() ==> (hit_of(#[trigger] scene[i], *ray) matches Some(h) ==> dist2(b.ip, cam_pos) <= dist2(h.ip, cam_pos)),
{
    let mut best: Option<HitInfo> = None;
    let mut i: usize = 0;
    while i < scene.len()
        invariant
            i <= scene.len(),
            scene_wf(scene@),
            ray_wf(*ray),
            cam_pos.in_world(),
            best == closest_of(scene@.subrange(0, i as int), *ray, cam_pos),
            best matches Some(h) ==> hit_in_range(h),
            best is None <==> forall|j: int| 0 <= j < i ==> hit_of(#[trigger] scene[j], *ray) is None,
            best matches Some(b) ==> forall|j: int|
                0 <= j < i ==> (hit_of(#[trigger] scene[j], *ray) matches Some(h) ==> dist2(b.ip, cam_pos) <= dist2(h.ip, cam_pos)),
        decreases scene.len() - i,
    {
        proof {
            assert(scene@.subrange(0, i + 1).drop_last() =~= scene@.subrange(0, i as int));
            assert(scene@.subrange(0, i + 1).last() == scene@[i as int]);
        }
        let hit = scene[i].hits(ray);
        match hit {
            None => {},
            Some(h) => {
                match best {
                    None => {
                        best = Some(h);
                    },
                    Some(b) => {
                        let dh = dist2_exec(h.ip, cam_pos);
                        let db = dist2_exec(b.ip, cam_pos);
                        if dh < db {
                            best = Some(h);
                        }
                    },
                }
            },
        }
        i = i + 1;
    }
    assert(scene@.subrange(0, scene.len() as int) =~= scene@);
    best
}

/// The ray through pixel `(row, col)` of a `width` by `height` image: through the center of
/// the pixel's cell of the viewport, row 0 at the top and column 0 at the left.
pub open spec fn pixel_ray_of(cam: Camera, width: int, height: int, row: int, col: int) -> Ray {
    Ray {
        origin: cam.pos,
        dir: Point {
            x: ((2 * col + 1 - width) * cam.w / (2 * width)) as i64,
            y: ((height - 2 * row - 1) * cam.h / (2 * height)) as i64,
            z: cam.focl,
        },
    }
}

/// The color of pixel number `p`, counted row by row from the top left.
pub open spec fn pixel_color(
    scene: Seq<Hittable>,
    lights: Seq<PointLight>,
    cam: Camera,
    width: int,
    height: int,
    p: int,
) -> Color {
    match closest_of(scene, pixel_ray_of(cam, width, height, p / width, p % width), cam.pos) {
        None => background(),
        Some(h) => shade_of(h, cam.pos, lights),
    }
}

/// One component `(k * extent) / (2 * n)` of a pixel ray, with `|k| <= n`.
fn view_offset(k: i64, extent: i64, n: i64) -> (r: i64)
    requires
        1 <= n <= MAX_DIM,
        -n <= k <= n,
        0 <= extent <= LIMIT,
    ensures
        r == k * extent / (2 * n),
        -LIMIT <= r <= LIMIT,
{
    proof {
        lemma_mul_bound(k as int, extent as int, n as int, LIMIT as int);
        assert(n * LIMIT <= LIMIT * (2 * n)) by (nonlinear_arith)
            requires
                n >= 1,
        ;
        assert(n * (LIMIT as int) == (n as int) * LIMIT);
        lemma_div_bound(k * extent, 2 * n, LIMIT as int);
    }
    fdiv((k as i128) * (extent as i128), 2 * (n as i128)) as i64
}

/// The ray through pixel `(row, col)`, as `pixel_ray_of`.
pub fn pixel_ray(cam: &Camera, width: usize, height: usize, row: usize, col: usize) -> (r: Ray)
    requires
        cam.wf(),
        1 <= width <= MAX_DIM,
        1 <= height <= MAX_DIM,
        row < height,
        col < width,
    ensures
        r == pixel_ray_of(*cam, width as int, height as int, row as int, col as int),
        ray_wf(r),
{
    let x = view_offset(2 * col as i64 + 1 - width as i64, cam.w, width as i64);
    let y = view_offset(height as i64 - 2 * row as i64 - 1, cam.h, height as i64);
    Ray { origin: cam.pos, dir: Point { x, y, z: cam.focl } }
}

/// Renders the scene: for each pixel, row by row from the top left, three bytes R, G, B of
/// the shaded nearest hit, or of the background where nothing is hit.
pub fn render(
    scene: &Vec<Hittable>,
    lights: &Vec<PointLight>,
    cam: &Camera,
    width: usize,
    height: usize,
) -> (r: Vec<u8>)
    requires
        scene_wf(scene@),
        lights_wf(lights@),
        cam.wf(),
        1 <= width <= MAX_DIM,
        1 <= height <= MAX_DIM,
    ensures
        r.len() == 3 * width * height,
        forall|p: int|
            0 <= p < width * height ==> {
                let c = pixel_color(scene@, lights@, *cam, width as int, height as int, p);
                &&& #[trigger] r[3 * p] == c.r
                &&& r[3 * p + 1] == c.g
                &&& r[3 * p + 2] == c.b
            },
{
    let mut out: Vec<u8> = Vec::new();
    let ghost n: int = width * height;
    assert(n <= MAX_DIM * MAX_DIM) by (nonlinear_arith)
        requires
            n == width * height,
            1 <= width <= MAX_DIM,
            1 <= height <= MAX_DIM,
    ;
    let mut row: usize = 0;
    while row < height
        invariant
            scene_wf(scene@),
            lights_wf(lights@),
            cam.wf(),
            1 <= width <= MAX_DIM,
            1 <= height <= MAX_DIM,
            n == width * height,
            row <= height,
            out.len() == 3 * (row * width),
            forall|p: int|
                0 <= p < row * width ==> {
                    let c = pixel_color(scene@, lights@, *cam, width as int, height as int, p);
                    &&& #[trigger] out[3 * p] == c.r
                    &&& out[3 * p + 1] == c.g
                    &&& out[3 * p + 2] == c.b
                },
        decreases height - row,
    {
        let mut col: usize = 0;
        while col < width
            invariant
                scene_wf(scene@),
                lights_wf(lights@),
                cam.wf(),
                1 <= width <= MAX_DIM,
                1 <= height <= MAX_DIM,
                n == width * height,
                row < height,
                col <= width,
                out.len() == 3 * (row * width + col),
                forall|p: int|
                    0 <= p < row * width + col ==> {
                        let c = pixel_color(scene@, lights@, *cam, width as int, height as int, p);
                        &&& #[trigger] out[3 * p] == c.r
                        &&& out[3 * p + 1] == c.g
                        &&& out[3 * p + 2] == c.b
                    },
            decreases width - col,
        {
            let ghost p: int = row * width + col;
            proof {
                assert(p < n) by (nonlinear_arith)
                    requires
                        p == row * width + col,
                        row < height,
                        col < width,
                        n == width * height,
                ;
                vstd::arithmetic::div_mod::lemma_fundamental_div_mod_converse(p, width as int, row as int, col as int);
            }
            let ray = pixel_ray(cam, width, height, row, col);
            let hit = closest_hit(scene, &ray, cam.pos);
            let c = match hit {
                None => Color { r: 0, g: 0, b: 0 },
                Some(h) => phong_single_src(&h, cam, lights),
            };
            assert(c == pixel_color(scene@, lights@, *cam, width as int, height as int, p));
            let ghost before = out@;
            out.push(c.r);
            out.push(c.g);
            out.push(c.b);
            proof {
                assert forall|q: int| 0 <= q < p + 1 implies {
                    let cq = pixel_color(scene@, lights@, *cam, width as int, height as int, q);
                    &&& #[trigger] out[3 * q] == cq.r
                    &&& out[3 * q + 1] == cq.g
                    &&& out[3 * q + 2] == cq.b
                } by {
                    if q < p {
                        assert(out[3 * q] == before[3 * q]);
                        assert(out[3 * q + 1] == before[3 * q + 1]);
                        assert(out[3 * q + 2] == before[3 * q + 2]);
                    }
                }
            }
            col = col + 1;
        }
        proof {
            assert((row + 1) * width == row * width + width) by (nonlinear_arith);
        }
        row = row + 1;
    }
    assert(3 * (row * width) == 3 * width * height && row * width == width * height) by (nonlinear_arith)
        requires
            row == height,
    ;
    out
}

/// With no primitives, every pixel has the background color.
pub proof fn lemma_empty_scene_background(
    lights: Seq<PointLight>,
    cam: Camera,
    width: int,
    height: int,
    p: int,
)
    ensures
        pixel_color(Seq::empty(), lights, cam, width, height, p) == background(),
{
}

} // verus!
