//! The pixel buffer and its encoding as a PNG stream.

use vstd::prelude::*;

verus! {

/// Most pixels that a buffer may hold: the largest `u32`, so that the place
/// of every pixel in the buffer is a `u32`.
pub const MAX_PIXELS: u32 = 0xffff_ffff;

/// A pixel: red, green and blue.
#[derive(Clone, Copy, Debug, PartialEq, Eq, Structural)]
pub struct Color(pub u32, pub u32, pub u32);

/// Why a pixel buffer refused an operation.
#[derive(Clone, Copy, Debug, PartialEq, Eq, Structural)]
pub enum SinkError {
    /// A buffer must be at least one pixel wide and one pixel high.
    ZeroSize,
    /// A buffer holds at most `MAX_PIXELS` pixels.
    TooLarge,
    /// The coordinates, or the end of the block, lie outside the buffer.
    OutOfBounds,
}

/// The mathematical model of a pixel buffer: its size and its pixels, row
/// after row.
pub ghost struct Image {
    pub width: int,
    pub height: int,
    pub pixels: Seq<Color>,
}

impl Image {
    /// The size is positive, at most `MAX_PIXELS` pixels, and the pixels
    /// are as many as the size says.
    pub open spec fn well_formed(self) -> bool {
        &&& 0 < self.width
        &&& 0 < self.height
        &&& self.width * self.height <= MAX_PIXELS
        &&& self.pixels.len() == self.width * self.height
    }

    /// The pixel in column `x` of row `y`.
    pub open spec fn at(self, x: int, y: int) -> Color {
        self.pixels[y * self.width + x]
    }
}

/// A buffer of `width` times `height` pixels.
#[derive(Clone, Debug, PartialEq, Eq)]
pub struct ColorSink {
    width: u32,
    height: u32,
    data: Vec<Color>,
}

impl View for ColorSink {
    type V = Image;

    closed spec fn view(&self) -> Image {
        Image { width: self.width as int, height: self.height as int, pixels: self.data@ }
    }
}

/// The place of a pixel within a buffer is within the buffer.
pub proof fn lemma_pixel_index(x: int, y: int, width: int, height: int)
    requires
        0 <= x < width,
        0 <= y < height,
    ensures
        0 <= y * width + x < width * height,
        y * width + width <= width * height,
        0 <= y * width,
{
    assert(0 <= y * width && y * width + width <= width * height) by (nonlinear_arith)
        requires
            0 <= y < height,
            0 < width,
    ;
    assert(width * height == height * width) by (nonlinear_arith);
}

/// Two pixels at the same place in the buffer are in the same column of the
/// same row.
pub proof fn lemma_index_injective(a: int, b: int, x: int, y: int, width: int)
    by (nonlinear_arith)
    requires
        0 <= a < width,
        0 <= x < width,
        b * width + a == y * width + x,
    ensures
        a == x,
        b == y,
{
}

/// Writing one pixel changes that pixel and no other.
pub proof fn lemma_update_at(before: Image, after: Image, x: int, y: int, color: Color)
    requires
        before.well_formed(),
        0 <= x < before.width,
        0 <= y < before.height,
        after.width == before.width,
        after.height == before.height,
        after.pixels == before.pixels.update(y * before.width + x, color),
    ensures
        after.at(x, y) == color,
        forall|a: int, b: int|
            0 <= a < before.width && 0 <= b < before.height && !(a == x && b == y)
                ==> #[trigger] after.at(a, b) == before.at(a, b),
{
    lemma_pixel_index(x, y, before.width, before.height);
    assert forall|a: int, b: int|
        0 <= a < before.width && 0 <= b < before.height && !(a == x && b == y)
        implies #[trigger] after.at(a, b) == before.at(a, b) by {
        lemma_pixel_index(a, b, before.width, before.height);
        if b * before.width + a == y * before.width + x {
            lemma_index_injective(a, b, x, y, before.width);
        }
    }
}

/// A place in the buffer is one column of one row.
pub proof fn lemma_row_column(k: int, width: int, height: int)
    requires
        0 < width,
        0 <= k < width * height,
    ensures
        0 <= k % width < width,
        0 <= k / width < height,
        (k / width) * width + k % width == k,
{
    vstd::arithmetic::div_mod::lemma_fundamental_div_mod(k, width);
    let q = k / width;
    let r = k % width;
    assert(0 <= r < width);
    assert(q * width == width * q) by (nonlinear_arith);
    assert(0 <= q < height) by (nonlinear_arith)
        requires
            0 < width,
            0 <= r < width,
            0 <= q * width + r < width * height,
    ;
}

/// The red, green and blue parts of the pixels as bytes, each part reduced
/// modulo 256.
pub open spec fn rgb_bytes(pixels: Seq<Color>) -> Seq<u8> {
    Seq::new(
        3 * pixels.len(),
        |k: int|
            {
                let c = pixels[k / 3];
                if k % 3 == 0 {
                    (c.0 % 256) as u8
                } else if k % 3 == 1 {
                    (c.1 % 256) as u8
                } else {
                    (c.2 % 256) as u8
                }
            },
    )
}

/// The pixels `base` with those of `block` written over them from index
/// `offset` on.
pub open spec fn with_block(base: Seq<Color>, offset: int, block: Seq<Color>) -> Seq<Color> {
    Seq::new(
        base.len(),
        |k: int|
            if offset <= k < offset + block.len() {
                block[k - offset]
            } else {
                base[k]
            },
    )
}

impl ColorSink {
    /// The size is positive, and the pixels are as many as the size says.
    pub open spec fn wf(&self) -> bool {
        self@.well_formed()
    }

    /// A black buffer of the given size.
    pub fn new(width: u32, height: u32) -> (r: Result<ColorSink, SinkError>)
        ensures
            match r {
                Ok(sink) => {
                    &&& width > 0 && height > 0 && width * height <= MAX_PIXELS
                    &&& sink.wf()
                    &&& sink@.width == width
                    &&& sink@.height == height
                    &&& forall|k: int|
                        0 <= k < width * height ==> #[trigger] sink@.pixels[k] == Color(0, 0, 0)
                },
                Err(SinkError::ZeroSize) => width == 0 || height == 0,
                Err(SinkError::TooLarge) => width > 0 && height > 0 && width * height > MAX_PIXELS,
                Err(SinkError::OutOfBounds) => false,
            },
    {
        if width == 0 || height == 0 {
            return Err(SinkError::ZeroSize);
        }
        assert(width * height <= 0xffff_ffff * 0xffff_ffff) by (nonlinear_arith)
            requires
                0 <= width <= 0xffff_ffff,
                0 <= height <= 0xffff_ffff,
        ;
        let count: u64 = (width as u64) * (height as u64);
        if count > MAX_PIXELS as u64 {
            return Err(SinkError::TooLarge);
        }
        let mut data: Vec<Color> = Vec::new();
        let mut i: u64 = 0;
        while i < count
            invariant
                i <= count,
                data@.len() == i,
                forall|k: int| 0 <= k < i ==> #[trigger] data@[k] == Color(0, 0, 0),
            decreases count - i,
        {
            data.push(Color(0, 0, 0));
            i += 1;
        }
        Ok(ColorSink { width, height, data })
    }

    /// How many columns the buffer has.
    pub fn get_width(&self) -> (w: u32)
        ensures
            w == self@.width,
    {
        self.width
    }

    /// How many rows the buffer has.
    pub fn get_height(&self) -> (h: u32)
        ensures
            h == self@.height,
    {
        self.height
    }

    /// The pixels, row after row.
    pub fn get_data(&self) -> (data: &Vec<Color>)
        ensures
            data@ == self@.pixels,
    {
        &self.data
    }

    /// The pixel in column `x` of row `y`.
    pub fn get_pixel(&self, x: u32, y: u32) -> (r: Result<Color, SinkError>)
        requires
            self.wf(),
        ensures
            match r {
                Ok(color) => x < self@.width && y < self@.height && color == self@.at(
                    x as int,
                    y as int,
                ),
                Err(e) => e == SinkError::OutOfBounds && (x >= self@.width || y >= self@.height),
            },
    {
        if x >= self.width || y >= self.height {
            return Err(SinkError::OutOfBounds);
        }
        proof {
            lemma_pixel_index(x as int, y as int, self.width as int, self.height as int);
        }
        Ok(self.data[(y * self.width + x) as usize])
    }

    /// Writes `color` to column `x` of row `y`, and leaves the buffer as it
    /// is where there is no such pixel.
    pub fn set_pixel(&mut self, x: u32, y: u32, color: Color) -> (r: Result<(), SinkError>)
        requires
            old(self).wf(),
        ensures
            final(self).wf(),
            final(self)@.width == old(self)@.width,
            final(self)@.height == old(self)@.height,
            match r {
                Ok(_) => x < old(self)@.width && y < old(self)@.height && final(self)@.pixels
                    == old(self)@.pixels.update(y * old(self)@.width + x, color),
                Err(e) => e == SinkError::OutOfBounds && (x >= old(self)@.width || y >= old(
                    self,
                )@.height) && final(self)@ == old(self)@,
            },
    {
        if x >= self.width || y >= self.height {
            return Err(SinkError::OutOfBounds);
        }
        proof {
            lemma_pixel_index(x as int, y as int, self.width as int, self.height as int);
        }
        let index: usize = (y * self.width + x) as usize;
        self.data.set(index, color);
        Ok(())
    }

    /// Writes the pixels of `rows` over those of the buffer from index
    /// `offset` on, and leaves the buffer as it is where they do not fit.
    pub fn set_block(&mut self, offset: u32, rows: &Vec<Color>) -> (r: Result<(), SinkError>)
        requires
            old(self).wf(),
        ensures
            final(self).wf(),
            final(self)@.width == old(self)@.width,
            final(self)@.height == old(self)@.height,
            match r {
                Ok(_) => offset + rows@.len() <= old(self)@.pixels.len() && final(self)@.pixels
                    == with_block(old(self)@.pixels, offset as int, rows@),
                Err(e) => e == SinkError::OutOfBounds && offset + rows@.len() > old(
                    self,
                )@.pixels.len() && final(self)@ == old(self)@,
            },
    {
        let total: usize = self.data.len();
        if rows.len() > total || offset as usize > total - rows.len() {
            return Err(SinkError::OutOfBounds);
        }
        let start: usize = offset as usize;
        let mut i: usize = 0;
        while i < rows.len()
            invariant
                i <= rows@.len(),
                start + rows@.len() <= total,
                total == self.data@.len(),
                self.width == old(self).width,
                self.height == old(self).height,
                old(self).wf(),
                old(self).data@.len() == total,
                forall|k: int|
                    0 <= k < total ==> #[trigger] self.data@[k] == if start <= k < start + i {
                        rows@[k - start]
                    } else {
                        old(self).data@[k]
                    },
            decreases rows@.len() - i,
        {
            self.data.set(start + i, rows[i]);
            i += 1;
        }
        assert(self.data@ =~= with_block(old(self).data@, offset as int, rows@));
        Ok(())
    }

    /// The red, green and blue parts of all pixels as bytes, row after row.
    pub fn to_rgb8(&self) -> (bytes: Vec<u8>)
        requires
            self.wf(),
        ensures
            bytes@ == rgb_bytes(self@.pixels),
    {
        let mut bytes: Vec<u8> = Vec::new();
        let mut i: usize = 0;
        while i < self.data.len()
            invariant
                i <= self.data@.len(),
                bytes@.len() == 3 * i,
                forall|k: int| 0 <= k < 3 * i ==> #[trigger] bytes@[k] == rgb_bytes(self.data@)[k],
            decreases self.data@.len() - i,
        {
            let c = self.data[i];
            bytes.push((c.0 % 256) as u8);
            bytes.push((c.1 % 256) as u8);
            bytes.push((c.2 % 256) as u8);
            i += 1;
        }
        assert(bytes@ =~= rgb_bytes(self.data@));
        bytes
    }
}

/// Why an image could not be encoded.
#[derive(Clone, Copy, Debug, PartialEq, Eq, Structural)]
pub enum ImageError {
    /// The encoder refused the image.
    Encoding,
    /// The image has as many bytes as the machine can count, or more: three
    /// for each pixel. No image is too large where a `usize` has 64 bits.
    TooLarge,
}

/// The error of the `png` encoder, `png::EncodingError`: carried through,
/// never looked into.
#[verifier::external_type_specification]
#[verifier::external_body]
pub struct ExEncodingError(png::EncodingError);

/// The PNG stream that the encoder of the `png` crate, with its default
/// compression and filter, writes for an image of the given size whose
/// pixels are the given bytes: red, green and blue, eight bits each, row
/// after row.
pub uninterp spec fn png_stream(width: u32, height: u32, rgb: Seq<u8>) -> Seq<u8>;

/// Runs `png::Encoder` over a vector in memory: `Encoder::new`, `set_color`
/// with `ColorType::Rgb`, `set_depth` with `BitDepth::Eight`, `write_header`,
/// `Writer::write_image_data` and `Writer::finish`.
///
/// The encoder counts the bytes of a row, plus one, and of the image in
/// `usize` without a check, so the image must have fewer than `usize::MAX`
/// bytes. What it writes is a function of the size and the bytes alone, and
/// that function is called `png_stream`. It succeeds on every image that has
/// a column, a row and three bytes for each pixel: `write_header` refuses
/// only a zero width, a zero height or a colour type that does not go with
/// the depth, `write_image_data` only a missing palette or a wrong number of
/// bytes, `finish` with the default options nothing, and writing to a vector
/// does not fail.
#[verifier::external_body]
fn encode_rgb8(width: u32, height: u32, rgb: &Vec<u8>) -> (r: Result<Vec<u8>, png::EncodingError>)
    requires
        3 * (width * height) < usize::MAX,
    ensures
        r matches Ok(stream) ==> stream@ == png_stream(width, height, rgb@),
        width > 0 && height > 0 && rgb@.len() == 3 * (width * height) ==> r is Ok,
{
    let mut stream: Vec<u8> = Vec::new();
    let mut encoder = png::Encoder::new(&mut stream, width, height);
    encoder.set_color(png::ColorType::Rgb);
    encoder.set_depth(png::BitDepth::Eight);
    let mut writer = encoder.write_header()?;
    writer.write_image_data(rgb)?;
    writer.finish()?;
    Ok(stream)
}

/// What the library makes of the encoder's answer: the stream where there is
/// one, and else the library's own error.
pub fn encoded(outcome: Result<Vec<u8>, png::EncodingError>) -> (r: Result<Vec<u8>, ImageError>)
    ensures
        match outcome {
            Ok(stream) => r == Ok::<Vec<u8>, ImageError>(stream),
            Err(_) => r == Err::<Vec<u8>, ImageError>(ImageError::Encoding),
        },
{
    match outcome {
        Ok(stream) => Ok(stream),
        Err(_) => Err(ImageError::Encoding),
    }
}

/// The image as a PNG stream with eight bits for each of red, green and
/// blue, each part of each pixel reduced modulo 256. Every image is encoded
/// but one of `usize::MAX` bytes or more.
pub fn write_png_image(in_data: &ColorSink) -> (r: Result<Vec<u8>, ImageError>)
    requires
        in_data.wf(),
    ensures
        match r {
            Ok(stream) => 3 * (in_data@.width * in_data@.height) < usize::MAX && stream@
                == png_stream(
                in_data@.width as u32,
                in_data@.height as u32,
                rgb_bytes(in_data@.pixels),
            ),
            Err(e) => e == ImageError::TooLarge && 3 * (in_data@.width * in_data@.height)
                >= usize::MAX,
        },
{
    let width: u32 = in_data.get_width();
    let height: u32 = in_data.get_height();
    let pixels: usize = in_data.get_data().len();
    assert(pixels == width * height);
    if 3 * (pixels as u128) >= usize::MAX as u128 {
        return Err(ImageError::TooLarge);
    }
    let bytes = in_data.to_rgb8();
    encoded(encode_rgb8(width, height, &bytes))
}

} // verus!
