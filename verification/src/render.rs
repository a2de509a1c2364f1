//! From rays to pixels: shading, supersampling and the tiled renderer.

use vstd::prelude::*;
use crate::camera::Camera;
use crate::image::{lemma_row_column, lemma_update_at, Color, ColorSink, MAX_PIXELS};
use crate::rays::{cast_spec, lemma_cast_bookkeeping, CastResult, Outcome, World};
use crate::scalar::{lemma_trunc_div_bound, trunc_div, ONE, SAMPLE_LIMIT};
use crate::shapes::Shape;
use crate::vector::Vec3;

verus! {

/// The distance cap of every cast that the renderer makes.
pub const CAST_DISTANCE: i64 = 500_000_000;

/// The grey of a pixel whose cast found no surface, on each channel.
pub const BACKGROUND: i64 = 200_000;

/// How many shades a renderer needs: one for each number of bounces that a
/// hit can report, from none to `MAX_BOUNCES + 1`.
pub const SHADE_COUNT: usize = 502;

/// The weight of the hit that a cast ended with, if it ended with one.
pub open spec fn hit_weight(outcome: Option<Outcome>) -> Option<int> {
    match outcome {
        Some(Outcome::Hit(h)) => Some(h.weight),
        _ => None,
    }
}

/// The weight of the hit that a cast returned, if it returned one.
pub open spec fn found_weight(result: Option<CastResult>) -> Option<int> {
    match result {
        Some(CastResult::Hit(h)) => Some(h.weight as int),
        _ => None,
    }
}

/// The colour of a sample before clamping: the shade for the whole part of
/// the weight of a hit, and the background where there is no hit.
pub open spec fn shade_of(weight: Option<int>, shades: Seq<Vec3>) -> Vec3 {
    match weight {
        Some(w) => shades[w / (ONE as int)],
        None => Vec3 { x: BACKGROUND, y: BACKGROUND, z: BACKGROUND },
    }
}

/// A channel clamped to the range from zero to one and scaled to 0..=255,
/// rounded down.
pub open spec fn channel_byte(c: int) -> int {
    let clamped = if c < 0 {
        0
    } else if c > ONE {
        ONE as int
    } else {
        c
    };
    clamped * 255 / (ONE as int)
}

/// The displayable pixel of a colour.
pub open spec fn displayed(col: Vec3) -> Color {
    Color(
        channel_byte(col.x as int) as u32,
        channel_byte(col.y as int) as u32,
        channel_byte(col.z as int) as u32,
    )
}

/// The colour that the sample at the image coordinates `(x, y)` shows.
pub open spec fn sample_spec(shapes: Seq<Shape>, camera: Camera, shades: Seq<Vec3>, x: int, y: int)
    -> Color {
    displayed(
        shade_of(
            hit_weight(cast_spec(shapes, camera.ray_through(x, y), CAST_DISTANCE as int)),
            shades,
        ),
    )
}

/// The image coordinate a quarter of a pixel before (`quarter` = -1) or
/// after (`quarter` = 1) the pixel `index` of `extent`.
pub open spec fn sample_coordinate(index: int, quarter: int, extent: int) -> int {
    trunc_div((4 * index + quarter) * ONE, 4 * extent)
}

/// The mean of four pixels, channel by channel, rounded down.
pub open spec fn mean_of_four(a: Color, b: Color, c: Color, d: Color) -> Color {
    Color(
        ((a.0 + b.0 + c.0 + d.0) / 4) as u32,
        ((a.1 + b.1 + c.1 + d.1) / 4) as u32,
        ((a.2 + b.2 + c.2 + d.2) / 4) as u32,
    )
}

/// What is rendered: the scene, the camera, the shades and the size of the
/// image.
pub ghost struct Setup {
    pub shapes: Seq<Shape>,
    pub camera: Camera,
    pub shades: Seq<Vec3>,
    pub width: int,
    pub height: int,
}

/// The colour of the pixel in column `x` of row `y`: the mean of four
/// samples, a quarter of a pixel to each side of its place.
pub open spec fn pixel_spec(setup: Setup, x: int, y: int) -> Color {
    let left = sample_coordinate(x, -1, setup.width);
    let right = sample_coordinate(x, 1, setup.width);
    let above = sample_coordinate(y, -1, setup.height);
    let below = sample_coordinate(y, 1, setup.height);
    mean_of_four(
        sample_spec(setup.shapes, setup.camera, setup.shades, left, above),
        sample_spec(setup.shapes, setup.camera, setup.shades, right, above),
        sample_spec(setup.shapes, setup.camera, setup.shades, right, below),
        sample_spec(setup.shapes, setup.camera, setup.shades, left, below),
    )
}

/// The colour of a sample before clamping.
pub fn shade(result: &Option<CastResult>, shades: &Vec<Vec3>) -> (col: Vec3)
    requires
        found_weight(*result) matches Some(w) ==> 0 <= w < shades@.len() * ONE,
    ensures
        col == shade_of(found_weight(*result), shades@),
{
    match result {
        Some(CastResult::Hit(hit)) => {
            let count: usize = shades.len();
            let whole: i64 = hit.weight / ONE;
            assert(0 <= whole < shades@.len()) by (nonlinear_arith)
                requires
                    0 <= hit.weight < shades@.len() * ONE,
                    whole == hit.weight as int / ONE as int,
                    ONE == 1_000_000,
            ;
            assert(whole < count);
            shades[whole as usize]
        },
        _ => Vec3 { x: BACKGROUND, y: BACKGROUND, z: BACKGROUND },
    }
}

/// A channel clamped to the range from zero to one and scaled to 0..=255.
fn channel_to_byte(c: i64) -> (b: u32)
    ensures
        b == channel_byte(c as int),
        b <= 255,
{
    let clamped: i64 = if c < 0 {
        0
    } else if c > ONE {
        ONE
    } else {
        c
    };
    (clamped * 255 / ONE) as u32
}

/// The displayable pixel of a colour: each channel clamped to the range from
/// zero to one and scaled to 0..=255.
pub fn to_color(col: Vec3) -> (c: Color)
    ensures
        c == displayed(col),
        c.0 <= 255 && c.1 <= 255 && c.2 <= 255,
{
    Color(channel_to_byte(col.x), channel_to_byte(col.y), channel_to_byte(col.z))
}

/// The colour that the sample at the image coordinates `(x, y)` shows: the
/// shade of what the cast of the camera's ray through it finds.
pub fn calc_pixel(x: i64, y: i64, camera: &Camera, world: &World, shades: &Vec<Vec3>) -> (c: Color)
    requires
        camera.valid(),
        world.valid(),
        shades@.len() == SHADE_COUNT,
        -SAMPLE_LIMIT <= x <= SAMPLE_LIMIT,
        -SAMPLE_LIMIT <= y <= SAMPLE_LIMIT,
    ensures
        c == sample_spec(world@, *camera, shades@, x as int, y as int),
        c.0 <= 255 && c.1 <= 255 && c.2 <= 255,
{
    let ray = camera.get_ray(x, y);
    let result = world.cast(ray, CAST_DISTANCE);
    proof {
        lemma_cast_bookkeeping(world@, ray@, CAST_DISTANCE as int);
    }
    to_color(shade(&result, shades))
}

/// The image coordinate a quarter of a pixel before or after the pixel
/// `index` of `extent`.
pub fn sample_at(index: u32, after: bool, extent: u32) -> (s: i64)
    requires
        index < extent,
    ensures
        s == sample_coordinate(index as int, if after { 1 } else { -1 }, extent as int),
        -ONE <= s <= ONE,
{
    let quarter: i64 = if after {
        1
    } else {
        -1
    };
    let numerator: i64 = (4 * (index as i64) + quarter) * ONE;
    let denominator: i64 = 4 * (extent as i64);
    proof {
        assert(ONE * denominator == 4 * extent * ONE);
        lemma_trunc_div_bound(numerator as int, denominator as int, ONE as int);
    }
    numerator / denominator
}

/// The colour of the pixel in column `x` of row `y` of an image of `width`
/// by `height` pixels: the mean of its four samples.
pub fn render_pixel(
    x: u32,
    y: u32,
    width: u32,
    height: u32,
    camera: &Camera,
    world: &World,
    shades: &Vec<Vec3>,
) -> (c: Color)
    requires
        camera.valid(),
        world.valid(),
        shades@.len() == SHADE_COUNT,
        x < width,
        y < height,
    ensures
        c == pixel_spec(
            Setup {
                shapes: world@,
                camera: *camera,
                shades: shades@,
                width: width as int,
                height: height as int,
            },
            x as int,
            y as int,
        ),
{
    let left: i64 = sample_at(x, false, width);
    let right: i64 = sample_at(x, true, width);
    let above: i64 = sample_at(y, false, height);
    let below: i64 = sample_at(y, true, height);
    let a = calc_pixel(left, above, camera, world, shades);
    let b = calc_pixel(right, above, camera, world, shades);
    let c = calc_pixel(right, below, camera, world, shades);
    let d = calc_pixel(left, below, camera, world, shades);
    Color((a.0 + b.0 + c.0 + d.0) / 4, (a.1 + b.1 + c.1 + d.1) / 4, (a.2 + b.2 + c.2 + d.2) / 4)
}

/// Why an image cannot be rendered in slices.
#[derive(Clone, Copy, Debug, PartialEq, Eq, Structural)]
pub enum RenderError {
    /// The image has no column or no row.
    ZeroSize,
    /// The image has more than `MAX_PIXELS` pixels.
    TooLarge,
    /// There is no slice to render.
    NoSlices,
    /// The rows cannot be dealt out evenly to the slices.
    UnevenSlices,
}

/// What stands against rendering an image of `width` by `height` pixels in
/// `slices` slices, if anything does.
pub open spec fn layout_error(width: int, height: int, slices: int) -> Option<RenderError> {
    if width == 0 || height == 0 {
        Some(RenderError::ZeroSize)
    } else if width * height > MAX_PIXELS {
        Some(RenderError::TooLarge)
    } else if slices == 0 {
        Some(RenderError::NoSlices)
    } else if height % slices != 0 {
        Some(RenderError::UnevenSlices)
    } else {
        None
    }
}

/// The whole image, row after row.
pub open spec fn rendered(setup: Setup) -> Seq<Color> {
    Seq::new(
        (setup.width * setup.height) as nat,
        |k: int| pixel_spec(setup, k % setup.width, k / setup.width),
    )
}

/// The slice `index` of `slices`, row after row: the rows from
/// `index * height / slices` up to `(index + 1) * height / slices`.
pub open spec fn slice_rendered(setup: Setup, slices: int, index: int) -> Seq<Color> {
    let rows = setup.height / slices;
    Seq::new(
        (setup.width * rows) as nat,
        |k: int| pixel_spec(setup, k % setup.width, k / setup.width + index * rows),
    )
}

/// The blocks laid one after the other, each `block` pixels long.
pub open spec fn joined(blocks: Seq<Seq<Color>>, block: int) -> Seq<Color> {
    Seq::new((blocks.len() * block) as nat, |k: int| blocks[k / block][k % block])
}

/// The image put together from `slices` slices, in their order.
pub open spec fn assembled(setup: Setup, slices: int) -> Seq<Color> {
    joined(
        Seq::new(slices as nat, |i: int| slice_rendered(setup, slices, i)),
        setup.width * (setup.height / slices),
    )
}

/// The rows of an image divide evenly into slices of `height / slices` rows.
pub proof fn lemma_even_slices(height: int, slices: int)
    requires
        0 < height,
        0 < slices,
        height % slices == 0,
    ensures
        0 < height / slices,
        slices * (height / slices) == height,
        (height / slices) * slices == height,
{
    vstd::arithmetic::div_mod::lemma_fundamental_div_mod(height, slices);
    let rows = height / slices;
    assert(rows > 0 && rows * slices == slices * rows) by (nonlinear_arith)
        requires
            0 < height,
            0 < slices,
            slices * rows == height,
    ;
}

/// Rendering in slices changes nothing: for a slice count that divides the
/// height, the image put together from the slices is the whole image, pixel
/// for pixel, and so is the same for every such count, one among them.
pub proof fn lemma_slicing_keeps_image(setup: Setup, slices: int)
    requires
        0 < setup.width,
        0 < setup.height,
        0 < slices,
        setup.height % slices == 0,
    ensures
        assembled(setup, slices) == rendered(setup),
        assembled(setup, slices) == assembled(setup, 1),
{
    lemma_assembled_is_rendered(setup, slices);
    lemma_assembled_is_rendered(setup, 1);
}

/// The image put together from slices is the whole image.
proof fn lemma_assembled_is_rendered(setup: Setup, slices: int)
    requires
        0 < setup.width,
        0 < setup.height,
        0 < slices,
        setup.height % slices == 0,
    ensures
        assembled(setup, slices) == rendered(setup),
{
    let w = setup.width;
    let h = setup.height;
    let rows = h / slices;
    let block = w * rows;
    lemma_even_slices(h, slices);
    assert(block > 0 && slices * block == w * h) by (nonlinear_arith)
        requires
            w > 0,
            rows > 0,
            block == w * rows,
            slices * rows == h,
    ;
    let whole = rendered(setup);
    let parts = assembled(setup, slices);
    assert(parts.len() == whole.len());
    assert forall|k: int| 0 <= k < whole.len() implies parts[k] == whole[k] by {
        assert(block * slices == slices * block) by (nonlinear_arith);
        lemma_row_column(k, block, slices);
        let i = k / block;
        let r = k % block;
        lemma_row_column(r, w, rows);
        let a = r % w;
        let b = r / w;
        assert(k == (i * rows + b) * w + a) by (nonlinear_arith)
            requires
                k == i * block + r,
                block == w * rows,
                r == b * w + a,
        ;
        vstd::arithmetic::div_mod::lemma_fundamental_div_mod_converse(k, w, i * rows + b, a);
        assert(slice_rendered(setup, slices, i)[r] == pixel_spec(setup, a, b + i * rows));
    }
    assert(parts =~= whole);
}

/// Whether an image of `width` by `height` pixels can be rendered in
/// `slices` slices.
pub fn check_layout(width: u32, height: u32, slices: u32) -> (r: Result<(), RenderError>)
    ensures
        match layout_error(width as int, height as int, slices as int) {
            Some(e) => r == Err::<(), RenderError>(e),
            None => r is Ok,
        },
{
    if width == 0 || height == 0 {
        return Err(RenderError::ZeroSize);
    }
    assert(width * height <= 0xffff_ffff * 0xffff_ffff) by (nonlinear_arith)
        requires
            0 <= width <= 0xffff_ffff,
            0 <= height <= 0xffff_ffff,
    ;
    if (width as u64) * (height as u64) > MAX_PIXELS as u64 {
        return Err(RenderError::TooLarge);
    }
    if slices == 0 {
        return Err(RenderError::NoSlices);
    }
    if height % slices != 0 {
        return Err(RenderError::UnevenSlices);
    }
    Ok(())
}

/// Renders the slice `index` of `slices`: a buffer of `height / slices`
/// rows that holds the rows of the image from `index * height / slices` on.
pub fn render_slice(
    width: u32,
    height: u32,
    slices: u32,
    index: u32,
    camera: &Camera,
    world: &World,
    shades: &Vec<Vec3>,
) -> (sink: ColorSink)
    requires
        layout_error(width as int, height as int, slices as int) is None,
        index < slices,
        camera.valid(),
        world.valid(),
        shades@.len() == SHADE_COUNT,
    ensures
        sink.wf(),
        sink@.width == width,
        sink@.height == height / slices,
        sink@.pixels == slice_rendered(
            Setup {
                shapes: world@,
                camera: *camera,
                shades: shades@,
                width: width as int,
                height: height as int,
            },
            slices as int,
            index as int,
        ),
{
    let ghost setup = Setup {
        shapes: world@,
        camera: *camera,
        shades: shades@,
        width: width as int,
        height: height as int,
    };
    let rows: u32 = height / slices;
    proof {
        lemma_even_slices(height as int, slices as int);
        assert(width * rows <= width * height && index * rows + rows <= height)
            by (nonlinear_arith)
            requires
                0 < width,
                0 < rows,
                slices * rows == height,
                0 <= index < slices,
        ;
    }
    let first: u32 = index * rows;
    let mut sink = ColorSink::new(width, rows).unwrap();
    let mut x: u32 = 0;
    while x < width
        invariant
            x <= width,
            0 < rows,
            first == index * rows,
            first + rows <= height,
            camera.valid(),
            world.valid(),
            shades@.len() == SHADE_COUNT,
            setup == (Setup {
                shapes: world@,
                camera: *camera,
                shades: shades@,
                width: width as int,
                height: height as int,
            }),
            sink.wf(),
            sink@.width == width,
            sink@.height == rows,
            forall|a: int, b: int|
                0 <= a < x && 0 <= b < rows ==> #[trigger] sink@.at(a, b) == pixel_spec(
                    setup,
                    a,
                    b + first,
                ),
        decreases width - x,
    {
        let mut ry: u32 = 0;
        while ry < rows
            invariant
                x < width,
                ry <= rows,
                0 < rows,
                first == index * rows,
                first + rows <= height,
                camera.valid(),
                world.valid(),
                shades@.len() == SHADE_COUNT,
                setup == (Setup {
                    shapes: world@,
                    camera: *camera,
                    shades: shades@,
                    width: width as int,
                    height: height as int,
                }),
                sink.wf(),
                sink@.width == width,
                sink@.height == rows,
                forall|a: int, b: int|
                    0 <= a < width && 0 <= b < rows && (a < x || (a == x && b < ry))
                        ==> #[trigger] sink@.at(a, b) == pixel_spec(setup, a, b + first),
            decreases rows - ry,
        {
            let y: u32 = ry + first;
            let col = render_pixel(x, y, width, height, camera, world, shades);
            let ghost before = sink@;
            let written = sink.set_pixel(x, ry, col);
            proof {
                lemma_update_at(before, sink@, x as int, ry as int, col);
            }
            ry += 1;
        }
        x += 1;
    }
    proof {
        let want = slice_rendered(setup, slices as int, index as int);
        assert(sink@.pixels.len() == want.len());
        assert forall|k: int| 0 <= k < want.len() implies sink@.pixels[k] == want[k] by {
            lemma_row_column(k, width as int, rows as int);
            assert(sink@.at(k % (width as int), k / (width as int)) == sink@.pixels[k]);
        }
        assert(sink@.pixels =~= want);
    }
    sink
}

/// The pixels of each part.
pub open spec fn pixels_of(parts: Seq<ColorSink>) -> Seq<Seq<Color>> {
    Seq::new(parts.len(), |i: int| parts[i]@.pixels)
}

/// Puts the image of `width` by `height` pixels together from its slices,
/// in their order.
pub fn assemble(width: u32, height: u32, parts: &Vec<ColorSink>) -> (sink: ColorSink)
    requires
        layout_error(width as int, height as int, parts@.len() as int) is None,
        parts@.len() <= u32::MAX,
        forall|i: int|
            0 <= i < parts@.len() ==> (#[trigger] parts@[i]).wf() && parts@[i]@.width == width
                && parts@[i]@.height == height as int / parts@.len() as int,
    ensures
        sink.wf(),
        sink@.width == width,
        sink@.height == height,
        sink@.pixels == joined(pixels_of(parts@), width * (height as int / parts@.len() as int)),
{
    let count: usize = parts.len();
    let ghost rows = height as int / count as int;
    let ghost block = width * rows;
    proof {
        lemma_even_slices(height as int, count as int);
        assert(block > 0 && count * block == width * height) by (nonlinear_arith)
            requires
                width > 0,
                rows > 0,
                block == width * rows,
                count * rows == height,
        ;
    }
    let mut sink = ColorSink::new(width, height).unwrap();
    let mut i: usize = 0;
    let mut offset: u32 = 0;
    while i < count
        invariant
            i <= count,
            count == parts@.len(),
            block > 0,
            count * block == width * height,
            width * height <= MAX_PIXELS,
            offset == i * block,
            sink.wf(),
            sink@.width == width,
            sink@.height == height,
            forall|j: int|
                0 <= j < parts@.len() ==> (#[trigger] parts@[j]).wf() && parts@[j]@.pixels.len()
                    == block,
            forall|k: int|
                0 <= k < i * block ==> #[trigger] sink@.pixels[k] == parts@[k / block]@.pixels[k
                    % block],
        decreases count - i,
    {
        let rows_here = parts[i].get_data();
        let ghost before = sink@.pixels;
        assert(parts@[i as int].wf());
        proof {
            assert((i + 1) * block <= count * block && (i + 1) * block == i * block + block)
                by (nonlinear_arith)
                requires
                    0 <= i < count,
                    block > 0,
            ;
        }
        let written = sink.set_block(offset, rows_here);
        proof {
            assert forall|k: int| 0 <= k < (i + 1) * block implies #[trigger] sink@.pixels[k]
                == parts@[k / block]@.pixels[k % block] by {
                if k >= i * block {
                    vstd::arithmetic::div_mod::lemma_fundamental_div_mod_converse(
                        k,
                        block,
                        i as int,
                        k - i * block,
                    );
                }
            }
        }
        offset = offset + rows_here.len() as u32;
        i += 1;
    }
    proof {
        let want = joined(pixels_of(parts@), block);
        assert(sink@.pixels.len() == want.len());
        assert forall|k: int| 0 <= k < want.len() implies sink@.pixels[k] == want[k] by {
            assert(block * count == count * block) by (nonlinear_arith);
            lemma_row_column(k, block, count as int);
        }
        assert(sink@.pixels =~= want);
    }
    sink
}

/// Renders the image of `width` by `height` pixels in `slices` slices, one
/// after the other, and puts it together from them.
pub fn render(
    width: u32,
    height: u32,
    slices: u32,
    camera: &Camera,
    world: &World,
    shades: &Vec<Vec3>,
) -> (r: Result<ColorSink, RenderError>)
    requires
        camera.valid(),
        world.valid(),
        shades@.len() == SHADE_COUNT,
    ensures
        match layout_error(width as int, height as int, slices as int) {
            Some(e) => r matches Err(f) && f == e,
            None => r matches Ok(sink) && sink.wf() && sink@.width == width && sink@.height
                == height && sink@.pixels == rendered(
                Setup {
                    shapes: world@,
                    camera: *camera,
                    shades: shades@,
                    width: width as int,
                    height: height as int,
                },
            ),
        },
{
    match check_layout(width, height, slices) {
        Err(e) => {
            return Err(e);
        },
        Ok(_) => {},
    }
    let ghost setup = Setup {
        shapes: world@,
        camera: *camera,
        shades: shades@,
        width: width as int,
        height: height as int,
    };
    let mut parts: Vec<ColorSink> = Vec::new();
    let mut index: u32 = 0;
    while index < slices
        invariant
            index <= slices,
            layout_error(width as int, height as int, slices as int) is None,
            camera.valid(),
            world.valid(),
            shades@.len() == SHADE_COUNT,
            setup == (Setup {
                shapes: world@,
                camera: *camera,
                shades: shades@,
                width: width as int,
                height: height as int,
            }),
            parts@.len() == index,
            forall|i: int|
                0 <= i < index ==> (#[trigger] parts@[i]).wf() && parts@[i]@.width == width
                    && parts@[i]@.height == height as int / slices as int && parts@[i]@.pixels
                    == slice_rendered(setup, slices as int, i),
        decreases slices - index,
    {
        let part = render_slice(width, height, slices, index, camera, world, shades);
        parts.push(part);
        index += 1;
    }
    let sink = assemble(width, height, &parts);
    proof {
        lemma_slicing_keeps_image(setup, slices as int);
        assert(pixels_of(parts@) =~= Seq::new(
            slices as nat,
            |i: int| slice_rendered(setup, slices as int, i),
        ));
    }
    Ok(sink)
}

/// The first number that has more than 24 significant bits to keep.
pub const EXACT_LIMIT: u32 = 0x100_0000;

/// How far apart the numbers of 24 significant bits lie around `c`: one
/// below `EXACT_LIMIT`, and twice as far with every doubling from there.
pub open spec fn spacing(c: int) -> int {
    if c < 0x100_0000 {
        1
    } else if c < 0x200_0000 {
        2
    } else if c < 0x400_0000 {
        4
    } else if c < 0x800_0000 {
        8
    } else if c < 0x1000_0000 {
        16
    } else if c < 0x2000_0000 {
        32
    } else if c < 0x4000_0000 {
        64
    } else if c < 0x8000_0000 {
        128
    } else {
        256
    }
}

/// The multiple of `s` nearest to `c`; of two equally near, the even
/// multiple.
pub open spec fn nearest_multiple(c: int, s: int) -> int {
    let below = c / s;
    let rest = c % s;
    if 2 * rest > s || (2 * rest == s && below % 2 == 1) {
        (below + 1) * s
    } else {
        below * s
    }
}

/// A channel after a gain of one in arithmetic that keeps 24 significant
/// bits: the nearest number of 24 significant bits, of two equally near the
/// one whose last kept bit is zero, and at most the largest `u32`.
pub open spec fn gained_channel(c: u32) -> u32 {
    let nearest = nearest_multiple(c as int, spacing(c as int));
    if nearest > u32::MAX {
        u32::MAX
    } else {
        nearest as u32
    }
}

/// A pixel with each channel after the gain.
pub open spec fn gained(c: Color) -> Color {
    Color(gained_channel(c.0), gained_channel(c.1), gained_channel(c.2))
}

/// A channel below `EXACT_LIMIT` comes through the gain as it is.
pub proof fn lemma_small_channel_kept(c: u32)
    requires
        c < EXACT_LIMIT,
    ensures
        gained_channel(c) == c,
{
}

/// The gain moves no channel by more than half the spacing around it.
pub proof fn lemma_gain_is_near(c: u32)
    ensures
        2 * (gained_channel(c) - c) <= spacing(c as int),
        2 * (c - gained_channel(c)) <= spacing(c as int),
{
    let s = spacing(c as int);
    let below = c as int / s;
    let rest = c as int % s;
    vstd::arithmetic::div_mod::lemma_fundamental_div_mod(c as int, s);
    assert(s * below == below * s && (below + 1) * s == below * s + s) by (nonlinear_arith);
}

/// A channel that the gain has rounded is left as it is by the gain.
pub proof fn lemma_gain_settles(c: u32)
    ensures
        gained_channel(gained_channel(c)) == gained_channel(c),
{
    let s = spacing(c as int);
    let below = c as int / s;
    let g = gained_channel(c);
    vstd::arithmetic::div_mod::lemma_fundamental_div_mod(c as int, s);
    assert(s * below == below * s && (below + 1) * s == below * s + s) by (nonlinear_arith);
    if g == u32::MAX && nearest_multiple(c as int, s) > u32::MAX {
        assert(spacing(u32::MAX as int) == 256);
        assert(gained_channel(u32::MAX) == u32::MAX);
    } else {
        let m = if g == below * s { below } else { below + 1 };
        assert(g == m * s);
        let t = spacing(g as int);
        assert(t == s || (t == 2 * s && g == 0x100_0000 * s));
        if t == s {
            vstd::arithmetic::div_mod::lemma_fundamental_div_mod_converse(g as int, t, m, 0);
        } else {
            assert(g == 0x80_0000 * t);
            vstd::arithmetic::div_mod::lemma_fundamental_div_mod_converse(
                g as int,
                t,
                0x80_0000,
                0,
            );
        }
    }
}

/// A channel after a gain of one in arithmetic that keeps 24 significant
/// bits.
fn gain_channel(c: u32) -> (r: u32)
    ensures
        r == gained_channel(c),
{
    let wide: u64 = c as u64;
    let step: u64 = if c < 0x100_0000 {
        1
    } else if c < 0x200_0000 {
        2
    } else if c < 0x400_0000 {
        4
    } else if c < 0x800_0000 {
        8
    } else if c < 0x1000_0000 {
        16
    } else if c < 0x2000_0000 {
        32
    } else if c < 0x4000_0000 {
        64
    } else if c < 0x8000_0000 {
        128
    } else {
        256
    };
    let below: u64 = wide / step;
    let rest: u64 = wide % step;
    proof {
        vstd::arithmetic::div_mod::lemma_fundamental_div_mod(wide as int, step as int);
        assert(step * below == below * step && (below + 1) * step == below * step + step)
            by (nonlinear_arith);
    }
    let nearest: u64 = if 2 * rest > step || (2 * rest == step && below % 2 == 1) {
        (below + 1) * step
    } else {
        below * step
    };
    if nearest > u32::MAX as u64 {
        u32::MAX
    } else {
        nearest as u32
    }
}

/// Passes every channel of every pixel through a gain of one in arithmetic
/// that keeps 24 significant bits: a channel below `EXACT_LIMIT` stays as it
/// is, a larger one becomes the nearest number of 24 significant bits.
pub fn process(cs: &mut ColorSink)
    requires
        old(cs).wf(),
    ensures
        final(cs).wf(),
        final(cs)@.width == old(cs)@.width,
        final(cs)@.height == old(cs)@.height,
        forall|k: int|
            0 <= k < old(cs)@.pixels.len() ==> #[trigger] final(cs)@.pixels[k] == gained(
                old(cs)@.pixels[k],
            ),
{
    let width: u32 = cs.get_width();
    let height: u32 = cs.get_height();
    let ghost start = cs@;
    let mut x: u32 = 0;
    while x < width
        invariant
            x <= width,
            start.well_formed(),
            cs.wf(),
            cs@.width == width == start.width,
            cs@.height == height == start.height,
            forall|a: int, b: int|
                0 <= a < width && 0 <= b < height ==> #[trigger] cs@.at(a, b) == if a < x {
                    gained(start.at(a, b))
                } else {
                    start.at(a, b)
                },
        decreases width - x,
    {
        let mut y: u32 = 0;
        while y < height
            invariant
                x < width,
                y <= height,
                start.well_formed(),
                cs.wf(),
                cs@.width == width == start.width,
                cs@.height == height == start.height,
                forall|a: int, b: int|
                    0 <= a < width && 0 <= b < height ==> #[trigger] cs@.at(a, b) == if a < x || (a
                        == x && b < y) {
                        gained(start.at(a, b))
                    } else {
                        start.at(a, b)
                    },
            decreases height - y,
        {
            let col = cs.get_pixel(x, y).unwrap();
            let scaled = Color(gain_channel(col.0), gain_channel(col.1), gain_channel(col.2));
            let ghost before = cs@;
            assert(before.at(x as int, y as int) == start.at(x as int, y as int));
            let written = cs.set_pixel(x, y, scaled);
            proof {
                lemma_update_at(before, cs@, x as int, y as int, scaled);
            }
            y += 1;
        }
        x += 1;
    }
    proof {
        assert forall|k: int| 0 <= k < start.pixels.len() implies #[trigger] cs@.pixels[k]
            == gained(start.pixels[k]) by {
            lemma_row_column(k, width as int, height as int);
            assert(cs@.at(k % (width as int), k / (width as int)) == cs@.pixels[k]);
            assert(start.at(k % (width as int), k / (width as int)) == start.pixels[k]);
        }
    }
}

} // verus!
