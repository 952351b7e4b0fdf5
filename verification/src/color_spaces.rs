//! Colours: CIELAB on a fixed-point grid and 8-bit sRGB.

use vstd::prelude::*;

verus! {

/// Number of grid steps in one CIELAB unit: coordinates are thousandths.
pub const LAB_SCALE: i32 = 1000;

/// Largest magnitude of a coordinate, in grid steps (250 CIELAB units).
///
/// Every colour that can be reached from sRGB lies well inside this cube; the
/// bound is what keeps the exact arithmetic of the pair search within 128 bits.
pub const LAB_LIMIT: i32 = 250_000;

/// Whether `v` is an admissible coordinate.
pub open spec fn coordinate_in_range(v: int) -> bool {
    -(LAB_LIMIT as int) <= v <= LAB_LIMIT as int
}

/// Whether all three coordinates of a point are admissible.
pub open spec fn point_in_range(p: (int, int, int)) -> bool {
    coordinate_in_range(p.0) && coordinate_in_range(p.1) && coordinate_in_range(p.2)
}

/// A colour in CIELAB space: lightness `l` and the two chromaticity axes `a`
/// and `b`, each in thousandths of a unit.
#[derive(Clone, Copy, Debug)]
pub struct LAB {
    l: i32,
    a: i32,
    b: i32,
}

impl View for LAB {
    type V = (int, int, int);

    closed spec fn view(&self) -> (int, int, int) {
        (self.l as int, self.a as int, self.b as int)
    }
}

impl LAB {
    /// Every colour lies in the admissible cube.
    #[verifier::type_invariant]
    pub open spec fn in_range(self) -> bool {
        point_in_range(self@)
    }

    /// Builds a colour from its three coordinates in thousandths, or `None`
    /// when one of them lies outside `[-LAB_LIMIT, LAB_LIMIT]`.
    pub fn new(l: i32, a: i32, b: i32) -> (color: Option<LAB>)
        ensures
            color is Some <==> point_in_range((l as int, a as int, b as int)),
            color matches Some(c) ==> c@ == (l as int, a as int, b as int),
    {
        if -LAB_LIMIT <= l && l <= LAB_LIMIT && -LAB_LIMIT <= a && a <= LAB_LIMIT && -LAB_LIMIT
            <= b && b <= LAB_LIMIT {
            Some(LAB { l, a, b })
        } else {
            None
        }
    }

    /// Lightness, in thousandths.
    pub fn l(&self) -> (v: i32)
        ensures
            v == self@.0,
            coordinate_in_range(v as int),
    {
        proof {
            use_type_invariant(self);
        }
        self.l
    }

    /// Green–red axis, in thousandths.
    pub fn a(&self) -> (v: i32)
        ensures
            v == self@.1,
            coordinate_in_range(v as int),
    {
        proof {
            use_type_invariant(self);
        }
        self.a
    }

    /// Blue–yellow axis, in thousandths.
    pub fn b(&self) -> (v: i32)
        ensures
            v == self@.2,
            coordinate_in_range(v as int),
    {
        proof {
            use_type_invariant(self);
        }
        self.b
    }
}

/// A colour in gamma-encoded sRGB, eight bits to a channel.
#[derive(Clone, Copy, Debug, PartialEq, Eq)]
pub struct SRGB {
    pub r: u8,
    pub g: u8,
    pub b: u8,
}

impl SRGB {
    /// The channels in the order in which an image stores them: red, green,
    /// blue.
    pub open spec fn channel(self, index: int) -> u8 {
        if index == 0 {
            self.r
        } else if index == 1 {
            self.g
        } else {
            self.b
        }
    }
}

/// A colour of the palette: where it lies in CIELAB, by which it is chosen,
/// and the sRGB colour that is written for it.
#[derive(Clone, Copy, Debug)]
pub struct PaletteColor {
    pub lab: LAB,
    pub srgb: SRGB,
}

/// The CIELAB colours of a palette, in palette order.
pub open spec fn palette_labs(palette: Seq<PaletteColor>) -> Seq<LAB> {
    palette.map_values(|c: PaletteColor| c.lab)
}

} // verus!
