//! Interactive storm picker: an annotated preview of a scene's storm
//! candidates, and the answers to the prompt that asks to choose one.

use vstd::prelude::*;
use vstd::string::*;

use crate::compose::Rgb8Image;
use crate::decimal;
use crate::grid;
use crate::render;
use crate::text;

verus! {

/// The color of the markers.
pub const MARKER: [u8; 3] = [255, 60, 220];

/// Half-side of the marker box, in preview pixels.
pub const BOX: i64 = 40;

/// How many times smaller the preview is than the image it shows.
pub const PREVIEW_FACTOR: u32 = 4;

/// How often the prompt is put before giving up.
pub const PROMPTS: u32 = 3;

/// The side of one cell of a digit glyph, in preview pixels.
pub const SCALE: i64 = 8;

/// 3x5 digit glyphs, one row per byte, low three bits used.
pub const DIGITS: [[u8; 5]; 10] = [
    [0b111, 0b101, 0b101, 0b101, 0b111],
    [0b010, 0b110, 0b010, 0b010, 0b111],
    [0b111, 0b001, 0b111, 0b100, 0b111],
    [0b111, 0b001, 0b111, 0b001, 0b111],
    [0b101, 0b101, 0b111, 0b001, 0b001],
    [0b111, 0b100, 0b111, 0b001, 0b111],
    [0b111, 0b100, 0b111, 0b101, 0b111],
    [0b111, 0b001, 0b010, 0b010, 0b010],
    [0b111, 0b101, 0b111, 0b101, 0b111],
    [0b111, 0b101, 0b111, 0b001, 0b111],
];

// ---------------------------------------------------------------------------
// Shrinking
// ---------------------------------------------------------------------------

/// One channel of sample `j` of the block that pixel (`x`, `y`) of the
/// smaller image covers.
pub open spec fn block_byte(
    image: Rgb8Image,
    factor: int,
    y: int,
    x: int,
    channel: int,
    j: int,
) -> u8 {
    image.data@[3 * grid::place(image.width as int, y * factor + j / factor, x * factor + j % factor)
        + channel]
}

/// The sum of one channel over the first `n` samples of a block.
pub open spec fn block_total(
    image: Rgb8Image,
    factor: int,
    y: int,
    x: int,
    channel: int,
    n: nat,
) -> nat
    decreases n,
{
    if n == 0 {
        0
    } else {
        block_total(image, factor, y, x, channel, (n - 1) as nat) + block_byte(
            image,
            factor,
            y,
            x,
            channel,
            n - 1,
        ) as nat
    }
}

/// The rounded-down average of one channel over a block.
pub open spec fn block_mean(image: Rgb8Image, factor: int, y: int, x: int, channel: int) -> u8 {
    (block_total(image, factor, y, x, channel, (factor * factor) as nat) / (factor * factor) as nat)
        as u8
}

/// The data of an image shrunk by a whole factor.
pub open spec fn shrunk(image: Rgb8Image, factor: int) -> Seq<u8> {
    let (w, h) = (image.width as int / factor, image.height as int / factor);
    Seq::new(
        (3 * (h * w)) as nat,
        |k: int| block_mean(image, factor, (k / 3) / w, (k / 3) % w, k % 3),
    )
}

proof fn lemma_block_byte(image: Rgb8Image, factor: int, y: int, x: int, channel: int, j: int)
    requires
        image.wf(),
        0 < factor,
        0 <= y < image.height as int / factor,
        0 <= x < image.width as int / factor,
        0 <= channel < 3,
        0 <= j < factor * factor,
    ensures
        0 <= y * factor + j / factor < image.height,
        0 <= x * factor + j % factor < image.width,
        0 <= 3 * grid::place(
            image.width as int,
            y * factor + j / factor,
            x * factor + j % factor,
        ) + channel < image.data@.len(),
{
    let (w, h) = (image.width as int, image.height as int);
    grid::place_has_cell(factor, factor, j);
    assert(0 <= y * factor && y * factor + factor <= h) by (nonlinear_arith)
        requires
            0 <= y < h / factor,
            0 < factor,
    ;
    assert(0 <= x * factor && x * factor + factor <= w) by (nonlinear_arith)
        requires
            0 <= x < w / factor,
            0 < factor,
    ;
    grid::cell_has_place(w, h, y * factor + j / factor, x * factor + j % factor);
    assert(h * w == w * h) by (nonlinear_arith);
}

proof fn lemma_block_total(image: Rgb8Image, factor: int, y: int, x: int, channel: int, n: nat)
    ensures
        block_total(image, factor, y, x, channel, n) <= 255 * n,
    decreases n,
{
    if n > 0 {
        lemma_block_total(image, factor, y, x, channel, (n - 1) as nat);
    }
}

/// The average of one channel over a block.
fn channel_mean(image: &Rgb8Image, factor: u32, y: usize, x: usize, channel: usize) -> (mean: u8)
    requires
        image.wf(),
        0 < factor,
        255 * (factor * factor) <= u32::MAX,
        y < image.height as int / factor as int,
        x < image.width as int / factor as int,
        channel < 3,
    ensures
        mean == block_mean(*image, factor as int, y as int, x as int, channel as int),
{
    let size: usize = factor as usize;
    let width: usize = image.width as usize;
    let have: usize = image.data.len();
    let mut sum: u32 = 0;
    let mut sub_y: usize = 0;
    let ghost cells = factor * factor;
    assert(0 * factor == 0) by (nonlinear_arith);
    while sub_y < size
        invariant
            sub_y <= size,
            size == factor,
            width == image.width,
            have == image.data@.len(),
            image.wf(),
            0 < factor,
            cells == factor * factor,
            255 * cells <= u32::MAX,
            y < image.height as int / factor as int,
            x < image.width as int / factor as int,
            channel < 3,
            sum == block_total(
                *image,
                factor as int,
                y as int,
                x as int,
                channel as int,
                (sub_y * factor) as nat,
            ),
        decreases size - sub_y,
    {
        proof {
            grid::cell_has_place(factor as int, factor as int, sub_y as int, 0);
            lemma_block_byte(
                *image,
                factor as int,
                y as int,
                x as int,
                channel as int,
                sub_y * factor,
            );
            assert((sub_y + 1) * factor == sub_y * factor + factor) by (nonlinear_arith);
        }
        let row: usize = (y * size + sub_y) * width + x * size;
        let mut sub_x: usize = 0;
        while sub_x < size
            invariant
                sub_x <= size,
                sub_y < size,
                size == factor,
                width == image.width,
                have == image.data@.len(),
                image.wf(),
                0 < factor,
                cells == factor * factor,
                255 * cells <= u32::MAX,
                y < image.height as int / factor as int,
                x < image.width as int / factor as int,
                channel < 3,
                row == (y * factor + sub_y) * width + x * factor,
                sum == block_total(
                    *image,
                    factor as int,
                    y as int,
                    x as int,
                    channel as int,
                    (sub_y * factor + sub_x) as nat,
                ),
            decreases size - sub_x,
        {
            let ghost j = sub_y * factor + sub_x;
            proof {
                grid::cell_has_place(factor as int, factor as int, sub_y as int, sub_x as int);
                lemma_block_byte(*image, factor as int, y as int, x as int, channel as int, j);
                lemma_block_total(
                    *image,
                    factor as int,
                    y as int,
                    x as int,
                    channel as int,
                    (j + 1) as nat,
                );
            }
            sum += image.data[(row + sub_x) * 3 + channel] as u32;
            sub_x += 1;
        }
        sub_y += 1;
    }
    proof {
        lemma_block_total(
            *image,
            factor as int,
            y as int,
            x as int,
            channel as int,
            cells as nat,
        );
        assert(cells > 0) by (nonlinear_arith)
            requires
                cells == factor * factor,
                factor > 0,
        ;
        assert(sum as int / cells <= 255) by (nonlinear_arith)
            requires
                sum <= 255 * cells,
                cells > 0,
        ;
    }
    (sum / (factor * factor)) as u8
}

/// Integer box-downsample of an RGB image.
pub fn shrink(image: &Rgb8Image, factor: u32) -> (small: Rgb8Image)
    requires
        image.wf(),
        0 < factor,
        255 * (factor * factor) <= u32::MAX,
    ensures
        small.wf(),
        small.width == image.width as int / factor as int,
        small.height == image.height as int / factor as int,
        small.data@ == shrunk(*image, factor as int),
{
    let (w, h): (u32, u32) = (image.width / factor, image.height / factor);
    let have: usize = image.data.len();
    proof {
        assert(have == 3 * (image.width * image.height));
        assert(0 <= h * w <= image.width * image.height) by (nonlinear_arith)
            requires
                w <= image.width,
                h <= image.height,
        ;
        assert(w * h == h * w) by (nonlinear_arith);
    }
    let cell = |y: usize, x: usize| -> (pixel: [u8; 3])
        requires
            y < h,
            x < w,
        ensures
            pixel@[0] == block_mean(*image, factor as int, y as int, x as int, 0),
            pixel@[1] == block_mean(*image, factor as int, y as int, x as int, 1),
            pixel@[2] == block_mean(*image, factor as int, y as int, x as int, 2),
        {
            [
                channel_mean(image, factor, y, x, 0),
                channel_mean(image, factor, y, x, 1),
                channel_mean(image, factor, y, x, 2),
            ]
        };
    let pixels: Vec<[u8; 3]> = grid::par_cells(h as usize, w as usize, cell);
    let data: Vec<u8> = render::to_bytes(pixels.as_slice());
    proof {
        assert forall|k: int| 0 <= k < data@.len() implies #[trigger] data@[k] == shrunk(
            *image,
            factor as int,
        )[k] by {
            let i = k / 3;
            grid::place_has_cell(w as int, h as int, i);
            assert(call_ensures(
                cell,
                ((i / w as int) as usize, (i % w as int) as usize),
                pixels@[i],
            ));
            assert(k % 3 == 0 || k % 3 == 1 || k % 3 == 2);
        }
        assert(data@ =~= shrunk(*image, factor as int));
    }
    Rgb8Image { width: w, height: h, data }
}

/// A block of one color keeps that color when the image is shrunk.
pub proof fn shrinking_keeps_a_flat_color(
    image: Rgb8Image,
    factor: int,
    y: int,
    x: int,
    channel: int,
    level: u8,
)
    requires
        0 < factor,
        forall|j: int|
            0 <= j < factor * factor ==> #[trigger] block_byte(image, factor, y, x, channel, j)
                == level,
    ensures
        block_mean(image, factor, y, x, channel) == level,
{
    let cells = factor * factor;
    assert(cells > 0) by (nonlinear_arith)
        requires
            cells == factor * factor,
            factor > 0,
    ;
    lemma_flat_total(image, factor, y, x, channel, level, cells as nat);
    assert((cells * level) / cells == level) by (nonlinear_arith)
        requires
            cells > 0,
    ;
}

proof fn lemma_flat_total(
    image: Rgb8Image,
    factor: int,
    y: int,
    x: int,
    channel: int,
    level: u8,
    n: nat,
)
    requires
        n <= factor * factor,
        forall|j: int|
            0 <= j < factor * factor ==> #[trigger] block_byte(image, factor, y, x, channel, j)
                == level,
    ensures
        block_total(image, factor, y, x, channel, n) == n * level,
    decreases n,
{
    if n > 0 {
        lemma_flat_total(image, factor, y, x, channel, level, (n - 1) as nat);
        assert((n - 1) * level + level == n * level) by (nonlinear_arith);
    } else {
        assert(0 * level == 0) by (nonlinear_arith);
    }
}

// ---------------------------------------------------------------------------
// Markers
// ---------------------------------------------------------------------------

/// The pixel of an image that a point falls on, if any. Coordinates are read
/// in 32 bits.
pub open spec fn pixel_under(width: u32, height: u32, x: int, y: int) -> Option<int> {
    if x >= 0 && y >= 0 && x % 0x1_0000_0000 < width && y % 0x1_0000_0000 < height {
        Some(grid::place(width as int, y % 0x1_0000_0000, x % 0x1_0000_0000))
    } else {
        None
    }
}

/// The pixels of an image that the points of a shape fall on.
pub open spec fn pixels_under(width: u32, height: u32, shape: spec_fn(int, int) -> bool) -> Set<
    int,
> {
    Set::new(
        |i: int|
            exists|x: int, y: int|
                shape(x, y) && #[trigger] pixel_under(width, height, x, y) == Some(i),
    )
}

/// Image data with some pixels painted in the color of the markers.
pub open spec fn painted(data: Seq<u8>, pixels: Set<int>) -> Seq<u8> {
    Seq::new(
        data.len(),
        |k: int|
            if pixels.contains(k / 3) {
                MARKER@[k % 3]
            } else {
                data[k]
            },
    )
}

proof fn lemma_truncated(x: i64)
    requires
        x >= 0,
    ensures
        (x as u32) as int == x as int % 0x1_0000_0000,
{
    let small: u32 = x as u32;
    assert(small == x % 0x1_0000_0000) by (bit_vector)
        requires
            x >= 0,
            small == x as u32,
    ;
}

/// Paints the pixel that a point falls on, if any.
pub fn put(image: &mut Rgb8Image, x: i64, y: i64)
    requires
        old(image).wf(),
    ensures
        final(image).wf(),
        final(image).width == old(image).width,
        final(image).height == old(image).height,
        final(image).data@ == match pixel_under(
            old(image).width,
            old(image).height,
            x as int,
            y as int,
        ) {
            Some(i) => painted(old(image).data@, set![i]),
            None => old(image).data@,
        },
{
    let ghost before = image.data@;
    let have: usize = image.data.len();
    if x >= 0 && y >= 0 {
        proof {
            lemma_truncated(x);
            lemma_truncated(y);
        }
        let (column, row): (u32, u32) = (x as u32, y as u32);
        if column < image.width && row < image.height {
            proof {
                let (w, h) = (image.width as int, image.height as int);
                grid::cell_has_place(w, h, row as int, column as int);
                assert(w * h == h * w) by (nonlinear_arith);
            }
            let i: usize = (row as usize * image.width as usize + column as usize) * 3;
            let marker: [u8; 3] = MARKER;
            image.data.set(i, marker[0]);
            image.data.set(i + 1, marker[1]);
            image.data.set(i + 2, marker[2]);
            assert(image.data@ =~= painted(before, set![i as int / 3]));
        }
    }
}

/// A rectangle of points.
pub open spec fn rectangle(left: int, top: int, wide: int, high: int) -> spec_fn(int, int) -> bool {
    |x: int, y: int| left <= x < left + wide && top <= y < top + high
}

proof fn lemma_painted_twice(
    data: Seq<u8>,
    width: u32,
    height: u32,
    first: spec_fn(int, int) -> bool,
    second: spec_fn(int, int) -> bool,
    both: spec_fn(int, int) -> bool,
)
    requires
        forall|x: int, y: int| #[trigger] both(x, y) == (first(x, y) || second(x, y)),
    ensures
        painted(
            painted(data, pixels_under(width, height, first)),
            pixels_under(width, height, second),
        ) =~= painted(data, pixels_under(width, height, both)),
{
    let (a, b, c) = (
        pixels_under(width, height, first),
        pixels_under(width, height, second),
        pixels_under(width, height, both),
    );
    assert forall|i: int| #[trigger] c.contains(i) == (a.contains(i) || b.contains(i)) by {
        if a.contains(i) {
            let (x, y) = choose|x: int, y: int|
                first(x, y) && #[trigger] pixel_under(width, height, x, y) == Some(i);
            assert(both(x, y));
        }
        if b.contains(i) {
            let (x, y) = choose|x: int, y: int|
                second(x, y) && #[trigger] pixel_under(width, height, x, y) == Some(i);
            assert(both(x, y));
        }
        if c.contains(i) {
            let (x, y) = choose|x: int, y: int|
                both(x, y) && #[trigger] pixel_under(width, height, x, y) == Some(i);
            assert(first(x, y) || second(x, y));
        }
    }
}

proof fn lemma_painted_nothing(
    data: Seq<u8>,
    width: u32,
    height: u32,
    shape: spec_fn(int, int) -> bool,
)
    requires
        forall|x: int, y: int| !#[trigger] shape(x, y),
    ensures
        painted(data, pixels_under(width, height, shape)) =~= data,
{
    assert forall|i: int| !#[trigger] pixels_under(width, height, shape).contains(i) by {
        if pixels_under(width, height, shape).contains(i) {
            let (x, y) = choose|x: int, y: int|
                shape(x, y) && #[trigger] pixel_under(width, height, x, y) == Some(i);
            assert(!shape(x, y));
        }
    }
}

proof fn lemma_painted_point(data: Seq<u8>, width: u32, height: u32, x: int, y: int)
    ensures
        painted(data, pixels_under(width, height, rectangle(x, y, 1, 1))) =~= match pixel_under(
            width,
            height,
            x,
            y,
        ) {
            Some(i) => painted(data, set![i]),
            None => data,
        },
{
    let point = rectangle(x, y, 1, 1);
    assert forall|i: int| #[trigger] pixels_under(width, height, point).contains(i) == (pixel_under(
        width,
        height,
        x,
        y,
    ) == Some(i)) by {
        if pixel_under(width, height, x, y) == Some(i) {
            assert(point(x, y));
        }
        if pixels_under(width, height, point).contains(i) {
            let (u, v) = choose|u: int, v: int|
                point(u, v) && #[trigger] pixel_under(width, height, u, v) == Some(i);
            assert(u == x && v == y);
        }
    }
}

/// Paints a rectangle.
fn fill(image: &mut Rgb8Image, left: i64, top: i64, wide: i64, high: i64)
    requires
        old(image).wf(),
        0 <= wide,
        0 <= high,
        left + wide - 1 <= i64::MAX,
        top + high - 1 <= i64::MAX,
    ensures
        final(image).wf(),
        final(image).width == old(image).width,
        final(image).height == old(image).height,
        final(image).data@ == painted(
            old(image).data@,
            pixels_under(
                old(image).width,
                old(image).height,
                rectangle(left as int, top as int, wide as int, high as int),
            ),
        ),
{
    let ghost (width, height) = (image.width, image.height);
    let ghost before = image.data@;
    let mut dy: i64 = 0;
    proof {
        lemma_painted_nothing(
            before,
            width,
            height,
            rectangle(left as int, top as int, wide as int, 0),
        );
    }
    while dy < high
        invariant
            0 <= dy <= high,
            0 <= wide,
            left + wide - 1 <= i64::MAX,
            top + high - 1 <= i64::MAX,
            image.wf(),
            image.width == width,
            image.height == height,
            image.data@ == painted(
                before,
                pixels_under(
                    width,
                    height,
                    rectangle(left as int, top as int, wide as int, dy as int),
                ),
            ),
        decreases high - dy,
    {
        let ghost above = image.data@;
        let ghost row = top + dy;
        let mut dx: i64 = 0;
        proof {
            lemma_painted_nothing(above, width, height, rectangle(left as int, row, 0, 1));
        }
        while dx < wide
            invariant
                0 <= dx <= wide,
                0 <= dy < high,
                row == top + dy,
                left + wide - 1 <= i64::MAX,
                top + high - 1 <= i64::MAX,
                image.wf(),
                image.width == width,
                image.height == height,
                image.data@ == painted(
                    above,
                    pixels_under(width, height, rectangle(left as int, row, dx as int, 1)),
                ),
            decreases wide - dx,
        {
            proof {
                lemma_painted_point(image.data@, width, height, left + dx, row);
                lemma_painted_twice(
                    above,
                    width,
                    height,
                    rectangle(left as int, row, dx as int, 1),
                    rectangle(left + dx, row, 1, 1),
                    rectangle(left as int, row, dx + 1, 1),
                );
            }
            put(image, left + dx, top + dy);
            dx += 1;
        }
        proof {
            lemma_painted_twice(
                before,
                width,
                height,
                rectangle(left as int, top as int, wide as int, dy as int),
                rectangle(left as int, row, wide as int, 1),
                rectangle(left as int, top as int, wide as int, dy + 1),
            );
        }
        dy += 1;
    }
}

/// Whether a cell of a digit glyph is set.
pub open spec fn cell_set(digit: int, row: int, column: int) -> bool {
    let bits = DIGITS@[digit]@[row] as int;
    if column == 0 {
        bits / 4 % 2 == 1
    } else if column == 1 {
        bits / 2 % 2 == 1
    } else {
        bits % 2 == 1
    }
}

/// Whether a point lies on a digit whose glyph starts at the origin.
pub open spec fn on_glyph(digit: int, dx: int, dy: int) -> bool {
    0 <= dx < 24 && 0 <= dy < 40 && cell_set(digit, dy / 8, dx / 8)
}

/// Whether a point lies on a digit that is written to the right of a marker
/// box. The origin is the center of the box.
pub open spec fn on_digits(digits: Seq<char>, dx: int, dy: int) -> bool {
    exists|k: int|
        0 <= k < digits.len() && on_glyph(
            #[trigger] digits[k] as int - 48,
            dx - (50 + 32 * k),
            dy + 40,
        )
}

/// Whether a point lies on the outline of a marker box around the origin.
pub open spec fn on_box(dx: int, dy: int) -> bool {
    &&& -40 <= dx <= 40
    &&& -40 <= dy <= 40
    &&& dx <= -38 || 38 <= dx || dy <= -38 || 38 <= dy
}

/// Whether a point lies on a crosshair tick of a marker around the origin.
pub open spec fn on_tick(dx: int, dy: int) -> bool {
    ||| (8 <= dx <= 20 || -20 <= dx <= -8) && 0 <= dy < 2
    ||| (8 <= dy <= 20 || -20 <= dy <= -8) && 0 <= dx < 2
}

/// The points of a numbered marker: a box outline with crosshair ticks and
/// the number beside it.
pub open spec fn marker_shape(cx: int, cy: int, number: nat) -> spec_fn(int, int) -> bool {
    |x: int, y: int|
        on_box(x - cx, y - cy) || on_tick(x - cx, y - cy) || on_digits(
            decimal::numeral(number),
            x - cx,
            y - cy,
        )
}

/// The points of two shapes.
pub open spec fn either(
    first: spec_fn(int, int) -> bool,
    second: spec_fn(int, int) -> bool,
) -> spec_fn(int, int) -> bool {
    |x: int, y: int| first(x, y) || second(x, y)
}

proof fn lemma_painted_same(
    data: Seq<u8>,
    width: u32,
    height: u32,
    first: spec_fn(int, int) -> bool,
    second: spec_fn(int, int) -> bool,
)
    requires
        forall|x: int, y: int| #[trigger] first(x, y) == second(x, y),
    ensures
        painted(data, pixels_under(width, height, first)) == painted(
            data,
            pixels_under(width, height, second),
        ),
{
    let none = |x: int, y: int| false;
    lemma_painted_nothing(data, width, height, none);
    lemma_painted_twice(data, width, height, none, first, second);
}

/// The cells of a glyph at the given place, up to the `n`th in reading order.
spec fn glyph_part(digit: int, left: int, top: int, n: int) -> spec_fn(int, int) -> bool {
    |x: int, y: int|
        on_glyph(digit, x - left, y - top) && ((y - top) / 8) * 3 + (x - left) / 8 < n
}

/// Draws a digit.
fn draw_digit(image: &mut Rgb8Image, left: i64, top: i64, digit: usize)
    requires
        old(image).wf(),
        digit < 10,
        left + 24 <= i64::MAX,
        top + 40 <= i64::MAX,
    ensures
        final(image).wf(),
        final(image).width == old(image).width,
        final(image).height == old(image).height,
        final(image).data@ == painted(
            old(image).data@,
            pixels_under(
                old(image).width,
                old(image).height,
                |x: int, y: int| on_glyph(digit as int, x - left, y - top),
            ),
        ),
{
    let ghost (width, height) = (image.width, image.height);
    let ghost before = image.data@;
    let glyphs: [[u8; 5]; 10] = DIGITS;
    let glyph: [u8; 5] = glyphs[digit];
    let mut row: usize = 0;
    proof {
        lemma_painted_nothing(
            before,
            width,
            height,
            glyph_part(digit as int, left as int, top as int, 0),
        );
    }
    while row < 5
        invariant
            row <= 5,
            digit < 10,
            glyph == DIGITS@[digit as int],
            left + 24 <= i64::MAX,
            top + 40 <= i64::MAX,
            image.wf(),
            image.width == width,
            image.height == height,
            image.data@ == painted(
                before,
                pixels_under(
                    width,
                    height,
                    glyph_part(digit as int, left as int, top as int, row * 3),
                ),
            ),
        decreases 5 - row,
    {
        let bits: u8 = glyph[row];
        let mut column: usize = 0;
        while column < 3
            invariant
                row < 5,
                column <= 3,
                digit < 10,
                glyph == DIGITS@[digit as int],
                bits == glyph@[row as int],
                left + 24 <= i64::MAX,
                top + 40 <= i64::MAX,
                image.wf(),
                image.width == width,
                image.height == height,
                image.data@ == painted(
                    before,
                    pixels_under(
                        width,
                        height,
                        glyph_part(digit as int, left as int, top as int, row * 3 + column),
                    ),
                ),
            decreases 3 - column,
        {
            let set: bool = if column == 0 {
                bits / 4 % 2 == 1
            } else if column == 1 {
                bits / 2 % 2 == 1
            } else {
                bits % 2 == 1
            };
            let ghost n = row * 3 + column;
            let ghost done = glyph_part(digit as int, left as int, top as int, n);
            let ghost more = glyph_part(digit as int, left as int, top as int, n + 1);
            let cell_left: i64 = left + column as i64 * SCALE;
            let cell_top: i64 = top + row as i64 * SCALE;
            if set {
                let ghost cell = rectangle(cell_left as int, cell_top as int, 8, 8);
                proof {
                    assert(cell_set(digit as int, row as int, column as int));
                    assert forall|x: int, y: int| #[trigger] more(x, y) == (done(x, y) || cell(
                        x,
                        y,
                    )) by {
                        lemma_cell(x - left, y - top, row as int, column as int);
                    }
                    lemma_painted_twice(before, width, height, done, cell, more);
                }
                fill(image, cell_left, cell_top, SCALE, SCALE);
            } else {
                proof {
                    assert(!cell_set(digit as int, row as int, column as int));
                    assert forall|x: int, y: int| #[trigger] done(x, y) == more(x, y) by {
                        lemma_cell(x - left, y - top, row as int, column as int);
                    }
                    lemma_painted_same(before, width, height, done, more);
                }
            }
            column += 1;
        }
        row += 1;
    }
    proof {
        let whole = |x: int, y: int| on_glyph(digit as int, x - left, y - top);
        let part = glyph_part(digit as int, left as int, top as int, 15);
        lemma_painted_same(before, width, height, part, whole);
    }
}

/// A point of a glyph belongs to the cell whose square it lies in.
proof fn lemma_cell(dx: int, dy: int, row: int, column: int)
    requires
        0 <= row < 5,
        0 <= column < 3,
    ensures
        0 <= dx < 24 && 0 <= dy < 40 ==> ((dy / 8) * 3 + dx / 8 == row * 3 + column) == (8 * column
            <= dx < 8 * column + 8 && 8 * row <= dy < 8 * row + 8),
        8 * column <= dx < 8 * column + 8 && 8 * row <= dy < 8 * row + 8 ==> 0 <= dx < 24 && 0 <= dy
            < 40 && dy / 8 == row && dx / 8 == column,
{
}

/// A box outline with crosshair ticks and the candidate number beside it.
pub fn draw_marker(image: &mut Rgb8Image, center: (i64, i64), number: usize)
    requires
        old(image).wf(),
        i64::MIN + 40 <= center.0,
        center.0 + 50 + 32 * decimal::numeral(number as nat).len() <= i64::MAX,
        i64::MIN + 40 <= center.1 <= i64::MAX - 40,
    ensures
        final(image).wf(),
        final(image).width == old(image).width,
        final(image).height == old(image).height,
        final(image).data@ == painted(
            old(image).data@,
            pixels_under(
                old(image).width,
                old(image).height,
                marker_shape(center.0 as int, center.1 as int, number as nat),
            ),
        ),
{
    let (cx, cy): (i64, i64) = center;
    let ghost (width, height) = (image.width, image.height);
    let ghost before = image.data@;
    proof {
        decimal::numeral_is_digits(number as nat);
    }
    let ghost shape0 = |x: int, y: int| false;
    proof {
        lemma_painted_nothing(before, width, height, shape0);
    }
    let ghost shape1 = either(shape0, rectangle(cx - 40, cy - 40, 81, 3));
    proof {
        lemma_painted_twice(before, width, height, shape0, rectangle(cx - 40, cy - 40, 81, 3), shape1);
    }
    fill(image, cx - BOX, cy - BOX, 2 * BOX + 1, 3);
    let ghost shape2 = either(shape1, rectangle(cx - 40, cy + 40 - 2, 81, 3));
    proof {
        lemma_painted_twice(before, width, height, shape1, rectangle(cx - 40, cy + 40 - 2, 81, 3), shape2);
    }
    fill(image, cx - BOX, cy + BOX - 2, 2 * BOX + 1, 3);
    let ghost shape3 = either(shape2, rectangle(cx - 40, cy - 40, 3, 81));
    proof {
        lemma_painted_twice(before, width, height, shape2, rectangle(cx - 40, cy - 40, 3, 81), shape3);
    }
    fill(image, cx - BOX, cy - BOX, 3, 2 * BOX + 1);
    let ghost shape4 = either(shape3, rectangle(cx + 40 - 2, cy - 40, 3, 81));
    proof {
        lemma_painted_twice(before, width, height, shape3, rectangle(cx + 40 - 2, cy - 40, 3, 81), shape4);
    }
    fill(image, cx + BOX - 2, cy - BOX, 3, 2 * BOX + 1);
    let ghost shape5 = either(shape4, rectangle(cx + 8, cy as int, 13, 2));
    proof {
        lemma_painted_twice(before, width, height, shape4, rectangle(cx + 8, cy as int, 13, 2), shape5);
    }
    fill(image, cx + 8, cy, 13, 2);
    let ghost shape6 = either(shape5, rectangle(cx - 20, cy as int, 13, 2));
    proof {
        lemma_painted_twice(before, width, height, shape5, rectangle(cx - 20, cy as int, 13, 2), shape6);
    }
    fill(image, cx - BOX / 2, cy, 13, 2);
    let ghost shape7 = either(shape6, rectangle(cx as int, cy + 8, 2, 13));
    proof {
        lemma_painted_twice(before, width, height, shape6, rectangle(cx as int, cy + 8, 2, 13), shape7);
    }
    fill(image, cx, cy + 8, 2, 13);
    let ghost shape8 = either(shape7, rectangle(cx as int, cy - 20, 2, 13));
    proof {
        lemma_painted_twice(before, width, height, shape7, rectangle(cx as int, cy - 20, 2, 13), shape8);
    }
    fill(image, cx, cy - BOX / 2, 2, 13);
    let ghost digits = decimal::numeral(number as nat);
    let ghost lines = shape8;
    let written: String = decimal::decimal(number as u64);
    let figures: Vec<char> = text::to_chars(written.as_str());
    let mut k: usize = 0;
    let mut pen: i64 = cx + BOX + 10;
    proof {
        lemma_painted_same(
            before,
            width,
            height,
            lines,
            numbered_shape(cx as int, cy as int, digits.take(0)),
        );
    }
    while k < figures.len()
        invariant
            k <= figures@.len(),
            figures@ == digits,
            pen == cx + 50 + 32 * k,
            decimal::all_digits(digits),
            i64::MIN + 40 <= cx,
            cx + 50 + 32 * digits.len() <= i64::MAX,
            i64::MIN + 40 <= cy <= i64::MAX - 40,
            image.wf(),
            image.width == width,
            image.height == height,
            image.data@ == painted(
                before,
                pixels_under(
                    width,
                    height,
                    numbered_shape(cx as int, cy as int, digits.take(k as int)),
                ),
            ),
        decreases figures@.len() - k,
    {
        assert(decimal::is_digit(digits[k as int]));
        let digit: usize = (figures[k] as u32 - 48) as usize;
        let (left, top): (i64, i64) = (pen, cy - BOX);
        proof {
            let done = numbered_shape(cx as int, cy as int, digits.take(k as int));
            let glyph = |x: int, y: int| on_glyph(digit as int, x - left, y - top);
            let more = numbered_shape(cx as int, cy as int, digits.take(k + 1));
            assert forall|x: int, y: int| #[trigger] more(x, y) == (done(x, y) || glyph(x, y)) by {
                lemma_one_more_digit(digits, k as int, x - cx, y - cy);
            }
            lemma_painted_twice(before, width, height, done, glyph, more);
        }
        draw_digit(image, left, top, digit);
        pen += 4 * SCALE;
        k += 1;
    }
    proof {
        assert(digits.take(digits.len() as int) =~= digits);
        lemma_painted_same(
            before,
            width,
            height,
            numbered_shape(cx as int, cy as int, digits),
            marker_shape(cx as int, cy as int, number as nat),
        );
    }
}

/// The points of a marker with some digits beside it.
spec fn numbered_shape(cx: int, cy: int, digits: Seq<char>) -> spec_fn(int, int) -> bool {
    |x: int, y: int|
        on_box(x - cx, y - cy) || on_tick(x - cx, y - cy) || on_digits(digits, x - cx, y - cy)
}

proof fn lemma_one_more_digit(digits: Seq<char>, k: int, dx: int, dy: int)
    requires
        0 <= k < digits.len(),
    ensures
        on_digits(digits.take(k + 1), dx, dy) == (on_digits(digits.take(k), dx, dy) || on_glyph(
            digits[k] as int - 48,
            dx - (50 + 32 * k),
            dy + 40,
        )),
{
    let (more, less) = (digits.take(k + 1), digits.take(k));
    if on_digits(less, dx, dy) {
        let j = choose|j: int|
            0 <= j < less.len() && on_glyph(
                #[trigger] less[j] as int - 48,
                dx - (50 + 32 * j),
                dy + 40,
            );
        assert(more[j] == less[j]);
    }
    if on_glyph(digits[k] as int - 48, dx - (50 + 32 * k), dy + 40) {
        assert(more[k] == digits[k]);
    }
    if on_digits(more, dx, dy) {
        let j = choose|j: int|
            0 <= j < more.len() && on_glyph(
                #[trigger] more[j] as int - 48,
                dx - (50 + 32 * j),
                dy + 40,
            );
        if j < k {
            assert(less[j] == more[j]);
        }
    }
}

/// The points of the markers of all candidates, numbered from 1.
pub open spec fn markers_shape(centers: Seq<(i64, i64)>) -> spec_fn(int, int) -> bool {
    |x: int, y: int|
        exists|k: int|
            0 <= k < centers.len() && marker_shape(
                (#[trigger] centers[k]).0 as int,
                centers[k].1 as int,
                (k + 1) as nat,
            )(x, y)
}

/// Quarter-size preview with numbered markers. The centers are given in
/// pixels of the preview.
pub fn annotate(preview: &Rgb8Image, centers: &[(i64, i64)]) -> (image: Rgb8Image)
    requires
        preview.wf(),
        centers@.len() < usize::MAX,
        forall|k: int|
            0 <= k < centers@.len() ==> {
                let center = #[trigger] centers@[k];
                &&& i64::MIN + 40 <= center.0
                &&& center.0 + 50 + 32 * decimal::numeral((k + 1) as nat).len() <= i64::MAX
                &&& i64::MIN + 40 <= center.1 <= i64::MAX - 40
            },
    ensures
        image.wf(),
        image.width == preview.width / PREVIEW_FACTOR,
        image.height == preview.height / PREVIEW_FACTOR,
        image.data@ == painted(
            shrunk(*preview, PREVIEW_FACTOR as int),
            pixels_under(image.width, image.height, markers_shape(centers@)),
        ),
{
    let mut image: Rgb8Image = shrink(preview, PREVIEW_FACTOR);
    let ghost before = image.data@;
    let ghost (width, height) = (image.width, image.height);
    let mut k: usize = 0;
    proof {
        lemma_painted_nothing(before, width, height, markers_shape(centers@.take(0)));
    }
    while k < centers.len()
        invariant
            k <= centers@.len() < usize::MAX,
            forall|k: int|
                0 <= k < centers@.len() ==> {
                    let center = #[trigger] centers@[k];
                    &&& i64::MIN + 40 <= center.0
                    &&& center.0 + 50 + 32 * decimal::numeral((k + 1) as nat).len() <= i64::MAX
                    &&& i64::MIN + 40 <= center.1 <= i64::MAX - 40
                },
            image.wf(),
            image.width == width,
            image.height == height,
            image.data@ == painted(
                before,
                pixels_under(width, height, markers_shape(centers@.take(k as int))),
            ),
        decreases centers@.len() - k,
    {
        let center: (i64, i64) = centers[k];
        proof {
            let one = marker_shape(center.0 as int, center.1 as int, (k + 1) as nat);
            let (less, more) = (centers@.take(k as int), centers@.take(k + 1));
            let (done, all) = (markers_shape(less), markers_shape(more));
            assert forall|x: int, y: int| #[trigger] all(x, y) == (done(x, y) || one(x, y)) by {
                lemma_one_more_marker(centers@, k as int, x, y);
            }
            lemma_painted_twice(before, width, height, done, one, all);
        }
        draw_marker(&mut image, center, k + 1);
        k += 1;
    }
    assert(centers@.take(centers@.len() as int) =~= centers@);
    image
}

proof fn lemma_one_more_marker(centers: Seq<(i64, i64)>, k: int, x: int, y: int)
    requires
        0 <= k < centers.len(),
    ensures
        markers_shape(centers.take(k + 1))(x, y) == (markers_shape(centers.take(k))(x, y)
            || marker_shape(centers[k].0 as int, centers[k].1 as int, (k + 1) as nat)(x, y)),
{
    let (less, more) = (centers.take(k), centers.take(k + 1));
    if markers_shape(less)(x, y) {
        let j = choose|j: int|
            0 <= j < less.len() && marker_shape(
                (#[trigger] less[j]).0 as int,
                less[j].1 as int,
                (j + 1) as nat,
            )(x, y);
        assert(more[j] == less[j]);
    }
    if marker_shape(centers[k].0 as int, centers[k].1 as int, (k + 1) as nat)(x, y) {
        assert(more[k] == centers[k]);
    }
    if markers_shape(more)(x, y) {
        let j = choose|j: int|
            0 <= j < more.len() && marker_shape(
                (#[trigger] more[j]).0 as int,
                more[j].1 as int,
                (j + 1) as nat,
            )(x, y);
        if j < k {
            assert(less[j] == more[j]);
        }
    }
}

/// Markers change no pixel that none of their points falls on.
pub proof fn markers_leave_the_rest(
    data: Seq<u8>,
    width: u32,
    height: u32,
    centers: Seq<(i64, i64)>,
    i: int,
    channel: int,
)
    requires
        0 <= channel < 3,
        0 <= 3 * i + channel < data.len(),
        forall|x: int, y: int|
            markers_shape(centers)(x, y) ==> #[trigger] pixel_under(width, height, x, y) != Some(i),
    ensures
        painted(data, pixels_under(width, height, markers_shape(centers)))[3 * i + channel]
            == data[3 * i + channel],
{
    assert((3 * i + channel) / 3 == i);
}

// ---------------------------------------------------------------------------
// The prompt
// ---------------------------------------------------------------------------

/// Which of `candidates` candidates a text without white space around it
/// names: one of the numbers from 1 on.
pub open spec fn named_candidate(text: Seq<char>, candidates: nat) -> Option<int> {
    match decimal::unsigned_value(text, usize::MAX as nat) {
        Some(number) => if 1 <= number <= candidates {
            Some(number - 1)
        } else {
            None
        },
        None => None,
    }
}

/// Which of `candidates` candidates an answer names, with white space around
/// the number or not.
pub open spec fn chosen(answer: Seq<char>, candidates: nat) -> Option<int> {
    named_candidate(text::trimmed(answer), candidates)
}

/// The number beside a marker chooses its candidate.
pub proof fn shown_number_chooses_its_candidate(index: nat, candidates: nat)
    requires
        index < candidates <= usize::MAX,
    ensures
        named_candidate(decimal::numeral(index + 1), candidates) == Some(index as int),
{
    assert(decimal::zero_padded(index + 1, 0) == decimal::numeral(index + 1));
    decimal::unsigned_value_of_padded(index + 1, 0, usize::MAX as nat);
}

/// Reads an answer without white space around it: the index of the candidate
/// that it names.
pub fn read_choice(text: &[char], candidates: usize) -> (choice: Option<usize>)
    ensures
        match named_candidate(text@, candidates as nat) {
            Some(index) => choice matches Some(i) && i == index,
            None => choice is None,
        },
{
    match decimal::parse_unsigned(text, usize::MAX as u64) {
        Some(number) => if 1 <= number && number <= candidates as u64 {
            Some((number - 1) as usize)
        } else {
            None
        },
        None => None,
    }
}

/// Reads the answer to the prompt: the index of the candidate it names.
pub fn parse_choice(answer: &str, candidates: usize) -> (choice: Option<usize>)
    ensures
        match chosen(answer@, candidates as nat) {
            Some(index) => choice matches Some(i) && i == index,
            None => choice is None,
        },
{
    let trimmed: Vec<char> = text::trim(text::to_chars(answer).as_slice());
    read_choice(trimmed.as_slice(), candidates)
}

/// What follows an answer.
#[derive(Debug, Clone, Copy, PartialEq, Eq, Structural)]
pub enum AfterAnswer {
    /// A candidate was chosen.
    Chosen { index: usize },
    /// The prompt is put once more; `asked` prompts were answered in vain.
    AskAgain { asked: u32 },
    /// No valid choice was made.
    GiveUp,
}

/// What follows the answer to the prompt after `asked` answers in vain: the
/// candidate it names, another prompt, or giving up at the third answer in
/// vain.
pub fn after_answer(answer: &str, candidates: usize, asked: u32) -> (next: AfterAnswer)
    ensures
        match chosen(answer@, candidates as nat) {
            Some(index) => next == (AfterAnswer::Chosen { index: index as usize }) && 0 <= index
                < candidates,
            None => next == if asked + 1 < PROMPTS {
                AfterAnswer::AskAgain { asked: (asked + 1) as u32 }
            } else {
                AfterAnswer::GiveUp
            },
        },
{
    match parse_choice(answer, candidates) {
        Some(index) => AfterAnswer::Chosen { index },
        None => if asked < PROMPTS - 1 {
            AfterAnswer::AskAgain { asked: asked + 1 }
        } else {
            AfterAnswer::GiveUp
        },
    }
}

} // verus!
