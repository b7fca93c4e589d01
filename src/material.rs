use vstd::prelude::*;

use crate::sdf::{clamp, SDFHitInfo};
use crate::vec3::{bounded_by, interpolate, interpolate_spec, Vec3i, DOT_MAX, FRAC_ONE};

verus! {

/// A color channel triple.
pub type Color = Vec3i;

/// Colors whose channels a gradient can blend without overflow.
pub open spec fn color_ok(c: Color) -> bool {
    bounded_by(c, DOT_MAX as int)
}

/// One color everywhere.
#[derive(Clone, Copy, Debug, PartialEq, Eq, Structural)]
pub struct ColoredMaterial {
    pub color: Color,
}

/// Which surface parameter a gradient follows.
#[derive(Clone, Copy, Debug, PartialEq, Eq, Structural)]
pub enum Axis {
    U,
    V,
    W,
}

impl Axis {
    /// Reads an axis name, in either case.
    pub fn try_from(c: char) -> (r: Option<Axis>)
        ensures
            r == (if c == 'u' || c == 'U' {
                Some(Axis::U)
            } else if c == 'v' || c == 'V' {
                Some(Axis::V)
            } else if c == 'w' || c == 'W' {
                Some(Axis::W)
            } else {
                None
            }),
    {
        if c == 'u' || c == 'U' {
            Some(Axis::U)
        } else if c == 'v' || c == 'V' {
            Some(Axis::V)
        } else if c == 'w' || c == 'W' {
            Some(Axis::W)
        } else {
            None
        }
    }
}

/// Blends from `c2` (parameter 0) to `c1` (parameter 1) along one surface parameter.
#[derive(Clone, Copy, Debug, PartialEq, Eq, Structural)]
pub struct LinearGradientMaterial {
    pub c1: Color,
    pub c2: Color,
    pub axis: Axis,
}

/// What a material gives a point inside an object.
#[derive(Clone, Copy, Debug, PartialEq, Eq, Structural)]
pub enum DynMaterial {
    Colored(ColoredMaterial),
    LinearGradient(LinearGradientMaterial),
}

pub open spec fn axis_value(axis: Axis, h: SDFHitInfo) -> int {
    match axis {
        Axis::U => h.u as int,
        Axis::V => h.v as int,
        Axis::W => h.w as int,
    }
}

impl ColoredMaterial {
    pub fn new(color: Color) -> (r: ColoredMaterial)
        ensures
            r.color == color,
    {
        ColoredMaterial { color }
    }

    pub fn into(self) -> (r: DynMaterial)
        ensures
            r == DynMaterial::Colored(self),
    {
        DynMaterial::Colored(self)
    }

    pub fn hit(&self, _hit: SDFHitInfo) -> (r: Color)
        ensures
            r == self.color,
    {
        self.color
    }
}

impl LinearGradientMaterial {
    pub fn new(c1: Color, c2: Color, axis: Axis) -> (r: LinearGradientMaterial)
        ensures
            r.c1 == c1,
            r.c2 == c2,
            r.axis == axis,
    {
        LinearGradientMaterial { c1, c2, axis }
    }

    pub fn into(self) -> (r: DynMaterial)
        ensures
            r == DynMaterial::LinearGradient(self),
    {
        DynMaterial::LinearGradient(self)
    }

    pub open spec fn hit_spec(self, h: SDFHitInfo) -> Color {
        interpolate_spec(self.c1, self.c2, clamp(axis_value(self.axis, h), 0, FRAC_ONE as int))
    }

    pub fn hit(&self, hit: SDFHitInfo) -> (r: Color)
        requires
            color_ok(self.c1),
            color_ok(self.c2),
        ensures
            r == self.hit_spec(hit),
    {
        let t = match self.axis {
            Axis::U => hit.u,
            Axis::V => hit.v,
            Axis::W => hit.w,
        };
        let k = if t < 0 {
            0
        } else if t > FRAC_ONE {
            FRAC_ONE
        } else {
            t
        };
        interpolate(self.c1, self.c2, k)
    }
}

impl DynMaterial {
    pub open spec fn wf(self) -> bool {
        match self {
            DynMaterial::Colored(_) => true,
            DynMaterial::LinearGradient(g) => color_ok(g.c1) && color_ok(g.c2),
        }
    }

    pub open spec fn hit_spec(self, h: SDFHitInfo) -> Color {
        match self {
            DynMaterial::Colored(c) => c.color,
            DynMaterial::LinearGradient(g) => g.hit_spec(h),
        }
    }

    /// The color at a point with surface parameters `hit`.
    pub fn hit(&self, hit: SDFHitInfo) -> (r: Color)
        requires
            self.wf(),
        ensures
            r == self.hit_spec(hit),
    {
        match self {
            DynMaterial::Colored(c) => c.hit(hit),
            DynMaterial::LinearGradient(g) => g.hit(hit),
        }
    }
}

} // verus!
