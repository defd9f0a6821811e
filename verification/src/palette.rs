//! Color lookup tables over brightness temperature and cloud-top height.

use vstd::prelude::*;

use crate::ieee;
use crate::tuning::{
    BLACK, CLUT_CONVECTION, CLUT_GRAYSCALE, CLUT_RAINBOW, CLUT_WATER_VAPOR,
    CLOUD_MIN_HEIGHT_KM, HEIGHT_CLEAR_RGB, HEIGHT_CLUT, PARALLAX_MAX_HEIGHT_KM, SPACE_BT_CUTOFF,
};

verus! {

/// Which brightness-temperature palette to render with, for the standalone
/// band images and for the combined product's sandwich overlay. The sandwich
/// thresholds are tuned to the cold ramp of `Convection`, so that is the
/// default everywhere; other palettes simply recolor whatever the overlay
/// paints.
#[derive(Debug, Clone, Copy, PartialEq, Eq, Structural)]
pub enum ClutStyle {
    Convection,
    Grayscale,
    Rainbow,
    WaterVapor,
}

impl Default for ClutStyle {
    fn default() -> (style: Self)
        ensures
            style == ClutStyle::Convection,
    {
        ClutStyle::Convection
    }
}

impl ClutStyle {
    /// The points of the palette.
    pub open spec fn points(self) -> Seq<(u32, [u8; 3])> {
        match self {
            ClutStyle::Convection => CLUT_CONVECTION@,
            ClutStyle::Grayscale => CLUT_GRAYSCALE@,
            ClutStyle::Rainbow => CLUT_RAINBOW@,
            ClutStyle::WaterVapor => CLUT_WATER_VAPOR@,
        }
    }

    /// The points of the palette.
    pub fn table(self) -> (points: &'static [(u32, [u8; 3])])
        ensures
            points@ == self.points(),
    {
        match self {
            ClutStyle::Convection => &CLUT_CONVECTION,
            ClutStyle::Grayscale => &CLUT_GRAYSCALE,
            ClutStyle::Rainbow => &CLUT_RAINBOW,
            ClutStyle::WaterVapor => &CLUT_WATER_VAPOR,
        }
    }
}

/// Whether the points of a palette are numbers in strictly ascending order.
pub open spec fn ascending(points: Seq<(u32, [u8; 3])>) -> bool {
    &&& forall|i: int| 0 <= i < points.len() ==> !ieee::nan32((#[trigger] points[i]).0)
    &&& forall|i: int, j: int|
        0 <= i < j < points.len() ==> ieee::less32(
            (#[trigger] points[i]).0,
            (#[trigger] points[j]).0,
        )
}

/// The points of every palette ascend, and there is at least one.
pub proof fn palettes_ascend(style: ClutStyle)
    ensures
        style.points().len() > 0,
        ascending(style.points()),
        HEIGHT_CLUT@.len() > 0,
        ascending(HEIGHT_CLUT@),
{
}

/// Whether `x` lies between point `k - 1` and point `k` of a palette.
pub open spec fn between(points: Seq<(u32, [u8; 3])>, x: u32, k: int) -> bool {
    &&& 0 < k < points.len()
    &&& ieee::at_most32(points[k - 1].0, x)
    &&& ieee::less32(x, points[k].0)
}

/// A position lies between one pair of neighboring points only.
pub proof fn neighbors_are_unique(points: Seq<(u32, [u8; 3])>, x: u32, j: int, k: int)
    requires
        ascending(points),
        between(points, x, j),
        between(points, x, k),
    ensures
        j == k,
{
    if j < k {
        assert(ieee::at_most32(points[j].0, points[k - 1].0)) by {
            if j < k - 1 {
                assert(ieee::less32(points[j].0, points[k - 1].0));
            }
        }
    } else if k < j {
        assert(ieee::at_most32(points[k].0, points[j - 1].0)) by {
            if k < j - 1 {
                assert(ieee::less32(points[k].0, points[j - 1].0));
            }
        }
    }
}

/// Whether a color is that of a palette at `x`: the color of the first point
/// up to it, that of the last point from it on, and a blend of the two
/// neighbors in between.
pub open spec fn is_table_color<B>(
    points: Seq<(u32, [u8; 3])>,
    x: u32,
    blend: B,
    color: [u8; 3],
) -> bool where B: Fn(u32, (u32, [u8; 3]), (u32, [u8; 3])) -> [u8; 3] {
    if ieee::at_most32(x, points[0].0) {
        color == points[0].1
    } else if ieee::at_most32(points.last().0, x) {
        color == points.last().1
    } else {
        exists|k: int|
            #[trigger] between(points, x, k) && call_ensures(
                blend,
                (x, points[k - 1], points[k]),
                color,
            )
    }
}

/// Piecewise-linear sample of a (position, color) table, clamped at the ends.
/// `blend` mixes the colors of the points below and above `x`.
pub fn table_color<B>(points: &[(u32, [u8; 3])], x: u32, blend: B) -> (color: [u8; 3]) where
    B: Fn(u32, (u32, [u8; 3]), (u32, [u8; 3])) -> [u8; 3],

    requires
        points@.len() > 0,
        ascending(points@),
        !ieee::nan32(x),
        forall|k: int|
            #[trigger] between(points@, x, k) ==> call_requires(
                blend,
                (x, points@[k - 1], points@[k]),
            ),
    ensures
        is_table_color(points@, x, blend, color),
{
    let size: usize = points.len();
    let (floor, ceiling) = (points[0], points[size - 1]);
    if ieee::is_at_most32(x, floor.0) {
        return floor.1;
    }
    if ieee::is_at_most32(ceiling.0, x) {
        return ceiling.1;
    }
    let mut above: usize = 1;
    while ieee::is_at_most32(points[above].0, x)
        invariant
            0 < above < size,
            size == points@.len(),
            !ieee::nan32(x),
            ascending(points@),
            ieee::at_most32(points@[above - 1].0, x),
            !ieee::at_most32(points@[size - 1].0, x),
        decreases size - above,
    {
        above += 1;
    }
    assert(between(points@, x, above as int));
    blend(x, points[above - 1], points[above])
}

/// Whether a color is that of a brightness temperature under a palette:
/// black for space, error and implausibly cold pixels.
pub open spec fn is_clut_color<B>(
    points: Seq<(u32, [u8; 3])>,
    temperature: u32,
    blend: B,
    color: [u8; 3],
) -> bool where B: Fn(u32, (u32, [u8; 3]), (u32, [u8; 3])) -> [u8; 3] {
    if !ieee::finite32(temperature) || ieee::less32(temperature, SPACE_BT_CUTOFF) {
        color@ == seq![0u8, 0u8, 0u8]
    } else {
        is_table_color(points, temperature, blend, color)
    }
}

/// The color of a temperature in a style is one color where the blend is a
/// function of its arguments.
pub proof fn clut_colors_are_determined<B>(
    style: ClutStyle,
    temperature: u32,
    blend: B,
    a: [u8; 3],
    b: [u8; 3],
) where B: Fn(u32, (u32, [u8; 3]), (u32, [u8; 3])) -> [u8; 3]
    requires
        forall|x: u32, low: (u32, [u8; 3]), high: (u32, [u8; 3]), a: [u8; 3], b: [u8; 3]|
            #[trigger] call_ensures(blend, (x, low, high), a) && #[trigger] call_ensures(
                blend,
                (x, low, high),
                b,
            ) ==> a == b,
        is_clut_color(style.points(), temperature, blend, a),
        is_clut_color(style.points(), temperature, blend, b),
    ensures
        a == b,
{
    let points = style.points();
    palettes_ascend(style);
    if !ieee::finite32(temperature) || ieee::less32(temperature, SPACE_BT_CUTOFF) {
        assert(a =~= b);
    } else if !ieee::at_most32(temperature, points[0].0) && !ieee::at_most32(
        points.last().0,
        temperature,
    ) {
        let j = choose|k: int|
            #[trigger] between(points, temperature, k) && call_ensures(
                blend,
                (temperature, points[k - 1], points[k]),
                a,
            );
        let k = choose|k: int|
            #[trigger] between(points, temperature, k) && call_ensures(
                blend,
                (temperature, points[k - 1], points[k]),
                b,
            );
        neighbors_are_unique(points, temperature, j, k);
    }
}

/// Whether a blend can be called between any two neighboring points.
pub open spec fn blends<B>(points: Seq<(u32, [u8; 3])>, blend: B) -> bool where
    B: Fn(u32, (u32, [u8; 3]), (u32, [u8; 3])) -> [u8; 3],
 {
    forall|x: u32, k: int|
        #[trigger] between(points, x, k) ==> call_requires(blend, (x, points[k - 1], points[k]))
}

/// The color of a brightness temperature. Space, error, and implausibly cold
/// pixels render as black.
pub fn clut_color<B>(points: &[(u32, [u8; 3])], temperature: u32, blend: B) -> (color: [u8; 3]) where
    B: Fn(u32, (u32, [u8; 3]), (u32, [u8; 3])) -> [u8; 3],

    requires
        points@.len() > 0,
        ascending(points@),
        blends(points@, blend),
    ensures
        is_clut_color(points@, temperature, blend, color),
{
    if !ieee::is_finite32(temperature) || ieee::is_less32(temperature, SPACE_BT_CUTOFF) {
        return [0, 0, 0];
    }
    table_color(points, temperature, blend)
}

/// A height held within the range that is estimated.
pub open spec fn clamped_height(height: u32) -> u32 {
    if ieee::less32(height, 0) {
        0
    } else if ieee::less32(PARALLAX_MAX_HEIGHT_KM, height) {
        PARALLAX_MAX_HEIGHT_KM
    } else {
        height
    }
}

/// A height held within the range that is estimated: 0 to 16 km.
pub fn clamp_height(height: u32) -> (clamped: u32)
    ensures
        clamped == clamped_height(height),
{
    if ieee::is_less32(height, 0) {
        0
    } else if ieee::is_less32(PARALLAX_MAX_HEIGHT_KM, height) {
        PARALLAX_MAX_HEIGHT_KM
    } else {
        height
    }
}

/// Whether a color is that of a brightness temperature in the cloud-top
/// height render. What is colder than any cloud is space and shown like a
/// cloud-free pixel; what is not a temperature is black.
pub open spec fn is_height_color<H, B>(temperature: u32, height: H, blend: B, color: [u8; 3]) -> bool where
    H: Fn(u32) -> u32,
    B: Fn(u32, (u32, [u8; 3]), (u32, [u8; 3])) -> [u8; 3],
 {
    if !ieee::finite32(temperature) {
        color == BLACK
    } else if ieee::less32(temperature, SPACE_BT_CUTOFF) {
        color == HEIGHT_CLEAR_RGB
    } else {
        exists|top: u32|
            {
                &&& #[trigger] call_ensures(height, (temperature,), top)
                &&& if ieee::less32(clamped_height(top), CLOUD_MIN_HEIGHT_KM) {
                    color == HEIGHT_CLEAR_RGB
                } else {
                    is_table_color(HEIGHT_CLUT@, clamped_height(top), blend, color)
                }
            }
    }
}

/// Whether a height can be asked for of every finite temperature, and is
/// then a number.
pub open spec fn gives_heights<H: Fn(u32) -> u32>(height: H) -> bool {
    &&& forall|temperature: u32|
        ieee::finite32(temperature) ==> #[trigger] call_requires(height, (temperature,))
    &&& forall|temperature: u32, top: u32|
        ieee::finite32(temperature) && #[trigger] call_ensures(height, (temperature,), top)
            ==> !ieee::nan32(top)
}

/// The color of a brightness temperature in the cloud-top height render.
/// `height` estimates the height of a cloud top from its temperature.
pub fn height_color<H, B>(temperature: u32, height: H, blend: B) -> (color: [u8; 3]) where
    H: Fn(u32) -> u32,
    B: Fn(u32, (u32, [u8; 3]), (u32, [u8; 3])) -> [u8; 3],

    requires
        gives_heights(height),
        blends(HEIGHT_CLUT@, blend),
    ensures
        is_height_color(temperature, height, blend, color),
{
    if !ieee::is_finite32(temperature) {
        return BLACK;
    }
    if ieee::is_less32(temperature, SPACE_BT_CUTOFF) {
        return HEIGHT_CLEAR_RGB;
    }
    let top: u32 = height(temperature);
    assert(call_ensures(height, (temperature,), top));
    let clamped: u32 = clamp_height(top);
    if ieee::is_less32(clamped, CLOUD_MIN_HEIGHT_KM) {
        return HEIGHT_CLEAR_RGB;
    }
    proof {
        palettes_ascend(ClutStyle::Convection);
    }
    table_color(&HEIGHT_CLUT, clamped, blend)
}

} // verus!
