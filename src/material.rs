//! Surface materials for the Phong model.
use vstd::prelude::*;

use crate::vmaths::Point;

verus! {

/// Largest shading coefficient, color channel or light intensity, in fixed point.
pub const COEF_MAX: i64 = 0x10_0000;

/// Shading parameters of a surface; coefficients and colors are fixed point.
#[derive(Clone, Copy, Debug, PartialEq, Eq)]
pub struct Material {
    pub desc: &'static str,
    pub kd: i64,
    pub ks: i64,
    pub alpha: u32,
    pub base_color: Point,
}

/// A color or intensity with every channel in `[0, COEF_MAX]`.
pub open spec fn is_color(c: Point) -> bool {
    0 <= c.x <= COEF_MAX && 0 <= c.y <= COEF_MAX && 0 <= c.z <= COEF_MAX
}

impl Material {
    /// The value of `Material::default()`.
    pub open spec fn default_spec() -> Material {
        Material {
            desc: "default",
            kd: 19661,
            ks: 32768,
            alpha: 50,
            base_color: Point { x: 13107, y: 13107, z: 13107 },
        }
    }

    /// Coefficients and base color within the shading range.
    pub open spec fn wf(self) -> bool {
        0 <= self.kd <= COEF_MAX && 0 <= self.ks <= COEF_MAX && is_color(self.base_color)
    }

    /// A glossy material with the given base color.
    fn shiny(desc: &'static str, base_color: Point) -> (r: Material)
        requires
            is_color(base_color),
        ensures
            r.kd == 19661 && r.ks == 32768 && r.alpha == 50,
            r.base_color == base_color,
            r.desc == desc,
            r.wf(),
    {
        Material { desc, kd: 19661, ks: 32768, alpha: 50, base_color }
    }

    /// Glossy red.
    pub fn shiny_red() -> (r: Material)
        ensures
            r.desc == "default shiny red",
            r.kd == 19661 && r.ks == 32768 && r.alpha == 50,
            r.base_color == (Point { x: 39322, y: 13107, z: 13107 }),
            r.wf(),
    {
        Material::shiny("default shiny red", Point { x: 39322, y: 13107, z: 13107 })
    }

    /// Glossy blue.
    pub fn shiny_blue() -> (r: Material)
        ensures
            r.desc == "default shiny blue",
            r.kd == 19661 && r.ks == 32768 && r.alpha == 50,
            r.base_color == (Point { x: 13107, y: 13107, z: 39322 }),
            r.wf(),
    {
        Material::shiny("default shiny blue", Point { x: 13107, y: 13107, z: 39322 })
    }

    /// Glossy green.
    pub fn shiny_green() -> (r: Material)
        ensures
            r.desc == "default shiny green",
            r.kd == 19661 && r.ks == 32768 && r.alpha == 50,
            r.base_color == (Point { x: 13107, y: 39322, z: 13107 }),
            r.wf(),
    {
        Material::shiny("default shiny green", Point { x: 13107, y: 39322, z: 13107 })
    }
}

impl Default for Material {
    /// Glossy dark grey.
    fn default() -> (r: Material)
        ensures
            r.kd == 19661 && r.ks == 32768 && r.alpha == 50,
            r.base_color == (Point { x: 13107, y: 13107, z: 13107 }),
            r == Material::default_spec(),
            r.wf(),
    {
        Material::shiny("default", Point { x: 13107, y: 13107, z: 13107 })
    }
}

} // verus!
