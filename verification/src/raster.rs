//! Pixel buffers: decoded images as plain bytes.

use vstd::prelude::*;
use crate::color::Color;
use crate::error::CoreError;

verus! {

/// The largest width or height that `Raster::resize` accepts, for the source
/// and for the target. Up to here a pixel position is exact in single
/// precision, which is what the resampling filter computes in.
pub const MAX_SIDE: u32 = 16_777_216;

/// What a `Raster` stands for: its dimensions and its bytes, row by row, four
/// to a pixel: red, green, blue, alpha.
pub struct RasterView {
    pub width: nat,
    pub height: nat,
    pub data: Seq<u8>,
}

impl RasterView {
    /// The buffer holds exactly `width * height` pixels.
    pub open spec fn wf(self) -> bool {
        self.data.len() == 4 * self.width * self.height
    }

    /// The colour of the pixel in column `x` of row `y`.
    pub open spec fn color_at(self, x: int, y: int) -> Color {
        pixel_color(self.data, y * self.width + x)
    }
}

/// The number of whole pixels in a buffer.
pub open spec fn pixel_count(data: Seq<u8>) -> nat {
    data.len() / 4
}

/// The colour of the `i`-th pixel of a buffer. The alpha byte is not part of it.
pub open spec fn pixel_color(data: Seq<u8>, i: int) -> Color {
    Color { red: data[4 * i], green: data[4 * i + 1], blue: data[4 * i + 2] }
}

/// The sum of one channel over the first `n` pixels of a buffer.
pub open spec fn channel_total(data: Seq<u8>, channel: int, n: nat) -> int
    decreases n,
{
    if n == 0 {
        0
    } else {
        channel_total(data, channel, (n - 1) as nat) + data[4 * (n - 1) + channel]
    }
}

/// The mean colour of a buffer: for each channel the sum over all pixels,
/// divided by their number and rounded down. A buffer without pixels has none.
pub open spec fn mean_of(data: Seq<u8>) -> Option<Color> {
    let n = pixel_count(data);
    if n == 0 {
        None
    } else {
        Some(
            Color {
                red: (channel_total(data, 0, n) / n as int) as u8,
                green: (channel_total(data, 1, n) / n as int) as u8,
                blue: (channel_total(data, 2, n) / n as int) as u8,
            },
        )
    }
}

/// Whether an image of `width` by `height` pixels can be resampled to
/// `new_width` by `new_height`: no side is above `MAX_SIDE`, and the result
/// and the intermediate image, which has the old width, the new height and
/// sixteen bytes to a pixel, are no larger than an allocation may be.
pub open spec fn resizable(width: nat, height: nat, new_width: nat, new_height: nat) -> bool {
    &&& width <= MAX_SIDE
    &&& height <= MAX_SIDE
    &&& new_width <= MAX_SIDE
    &&& new_height <= MAX_SIDE
    &&& 16 * width * new_height <= isize::MAX
    &&& 4 * new_width * new_height <= isize::MAX
}

/// A channel total is at most 255 for each pixel.
proof fn lemma_channel_total_bounds(data: Seq<u8>, channel: int, n: nat)
    requires
        0 <= channel < 4,
        4 * n <= data.len(),
    ensures
        0 <= channel_total(data, channel, n) <= 255 * n,
    decreases n,
{
    if n > 0 {
        lemma_channel_total_bounds(data, channel, (n - 1) as nat);
    }
}

/// Calls `image::imageops::resize` with the Gaussian filter on an RGBA image
/// of 8 bits per channel, and hands back the bytes of the image it returns.
///
/// Trusted, not proved: the result has `new_width * new_height` pixels, and it
/// is a copy of the source where the dimensions do not change. Nothing is
/// claimed of the colours otherwise: the filter works in floating point, with
/// an exponential whose precision the standard library leaves open, so they
/// may differ from one platform to the next.
///
/// The call stays within `resizable`. Beyond it the outside function panics
/// when it allocates its result or its intermediate image, and its weights,
/// computed from pixel positions in single precision, are no longer known to
/// add up to more than zero.
#[verifier::external_body]
fn resample(data: &Vec<u8>, width: u32, height: u32, new_width: u32, new_height: u32) -> (out: Vec<
    u8,
>)
    requires
        data.len() == 4 * width * height,
        resizable(width as nat, height as nat, new_width as nat, new_height as nat),
    ensures
        out.len() == 4 * new_width * new_height,
        new_width == width && new_height == height ==> out@ == data@,
{
    let source = image::ImageBuffer::<image::Rgba<u8>, &[u8]>::from_raw(
        width,
        height,
        data.as_slice(),
    ).unwrap();
    image::imageops::resize(
        &source,
        new_width,
        new_height,
        image::imageops::FilterType::Gaussian,
    ).into_raw()
}

/// A decoded image: `width * height` pixels of four bytes each, row by row.
pub struct Raster {
    width: u32,
    height: u32,
    data: Vec<u8>,
}

impl View for Raster {
    type V = RasterView;

    closed spec fn view(&self) -> RasterView {
        RasterView { width: self.width as nat, height: self.height as nat, data: self.data@ }
    }
}

impl Raster {
    #[verifier::type_invariant]
    spec fn well_formed(&self) -> bool {
        self@.wf()
    }

    /// Makes a raster of bytes that a decoder produced. The bytes must be
    /// exactly four for each of the `width * height` pixels.
    pub fn from_rgba(width: u32, height: u32, data: Vec<u8>) -> (raster: Result<Self, CoreError>)
        ensures
            match raster {
                Ok(r) => r@ == (RasterView { width: width as nat, height: height as nat, data: data@ })
                    && r@.wf(),
                Err(e) => e == CoreError::Decode && data.len() != 4 * width * height,
            },
    {
        proof {
            lemma_area(width as nat, height as nat);
        }
        let area: u128 = (width as u128) * (height as u128);
        if data.len() as u128 == 4 * area {
            Ok(Raster { width, height, data })
        } else {
            Err(CoreError::Decode)
        }
    }

    /// The number of columns of the raster.
    pub fn width(&self) -> (w: u32)
        ensures
            w == self@.width,
            self@.wf(),
    {
        proof {
            use_type_invariant(self);
        }
        self.width
    }

    /// The number of rows of the raster.
    pub fn height(&self) -> (h: u32)
        ensures
            h == self@.height,
            self@.wf(),
    {
        proof {
            use_type_invariant(self);
        }
        self.height
    }

    /// The bytes of the raster, row by row.
    pub fn as_bytes(&self) -> (bytes: &Vec<u8>)
        ensures
            bytes@ == self@.data,
            self@.wf(),
    {
        proof {
            use_type_invariant(self);
        }
        &self.data
    }

    /// The colour of the pixel in column `x` of row `y`.
    pub fn color_at(&self, x: u32, y: u32) -> (color: Color)
        requires
            x < self@.width,
            y < self@.height,
        ensures
            color == self@.color_at(x as int, y as int),
    {
        proof {
            use_type_invariant(self);
            lemma_area(self@.width, self@.height);
            lemma_pixel_in_range(self@.width, self@.height, x as nat, y as nat);
            assert(self.data.len() == 4 * (self@.width * self@.height));
        }
        let i: usize = y as usize * self.width as usize + x as usize;
        Color::new(self.data[4 * i], self.data[4 * i + 1], self.data[4 * i + 2])
    }

    /// Whether `resize` accepts the target `new_width` by `new_height`.
    pub fn can_resize(&self, new_width: u32, new_height: u32) -> (ok: bool)
        ensures
            ok == resizable(self@.width, self@.height, new_width as nat, new_height as nat),
    {
        if self.width > MAX_SIDE || self.height > MAX_SIDE || new_width > MAX_SIDE || new_height
            > MAX_SIDE {
            return false;
        }
        proof {
            lemma_bounded_area(self.width as nat, new_height as nat);
            lemma_bounded_area(new_width as nat, new_height as nat);
        }
        let limit: u64 = isize::MAX as u64;
        let intermediate: u64 = 16 * (self.width as u64 * new_height as u64);
        let result: u64 = 4 * (new_width as u64 * new_height as u64);
        intermediate <= limit && result <= limit
    }

    /// Resamples the raster to exactly `new_width` by `new_height` pixels with
    /// a smooth filter, whatever its aspect ratio was. Where the dimensions do
    /// not change, neither do the pixels.
    pub fn resize(&self, new_width: u32, new_height: u32) -> (resized: Raster)
        requires
            resizable(self@.width, self@.height, new_width as nat, new_height as nat),
        ensures
            resized@.wf(),
            resized@.width == new_width,
            resized@.height == new_height,
            new_width == self@.width && new_height == self@.height ==> resized@ == self@,
    {
        proof {
            use_type_invariant(self);
        }
        let data = resample(&self.data, self.width, self.height, new_width, new_height);
        Raster { width: new_width, height: new_height, data }
    }

    /// The mean colour of all pixels, each channel rounded down. A raster
    /// without pixels has none.
    pub fn mean_color(&self) -> (mean: Option<Color>)
        ensures
            mean == mean_of(self@.data),
            mean is None <==> self@.width * self@.height == 0,
    {
        proof {
            use_type_invariant(self);
            lemma_area(self@.width, self@.height);
        }
        let n: usize = self.data.len() / 4;
        if n == 0 {
            return None;
        }
        let mut red: u128 = 0;
        let mut green: u128 = 0;
        let mut blue: u128 = 0;
        let mut i: usize = 0;
        while i < n
            invariant
                i <= n,
                n == pixel_count(self.data@),
                4 * n <= self.data.len(),
                red == channel_total(self.data@, 0, i as nat),
                green == channel_total(self.data@, 1, i as nat),
                blue == channel_total(self.data@, 2, i as nat),
            decreases n - i,
        {
            proof {
                lemma_channel_total_bounds(self.data@, 0, i as nat);
                lemma_channel_total_bounds(self.data@, 1, i as nat);
                lemma_channel_total_bounds(self.data@, 2, i as nat);
            }
            red = red + self.data[4 * i] as u128;
            green = green + self.data[4 * i + 1] as u128;
            blue = blue + self.data[4 * i + 2] as u128;
            i = i + 1;
        }
        let count: u128 = n as u128;
        proof {
            lemma_channel_total_bounds(self.data@, 0, n as nat);
            lemma_channel_total_bounds(self.data@, 1, n as nat);
            lemma_channel_total_bounds(self.data@, 2, n as nat);
        }
        assert(red / count <= 255 && green / count <= 255 && blue / count <= 255)
            by (nonlinear_arith)
            requires
                count > 0,
                red <= 255 * count,
                green <= 255 * count,
                blue <= 255 * count,
        ;
        Some(Color::new((red / count) as u8, (green / count) as u8, (blue / count) as u8))
    }
}

/// The length of a buffer is four times its area, and two sides of 32 bits
/// have an area of 64 bits.
proof fn lemma_area(width: nat, height: nat)
    ensures
        4 * width * height == 4 * (width * height),
        width <= u32::MAX && height <= u32::MAX ==> width * height <= 0xFFFF_FFFE_0000_0001,
{
    assert(4 * width * height == 4 * (width * height)) by (nonlinear_arith);
    if width <= u32::MAX && height <= u32::MAX {
        assert(width * height <= 0xFFFF_FFFF * 0xFFFF_FFFF) by (nonlinear_arith)
            requires
                width <= 0xFFFF_FFFF,
                height <= 0xFFFF_FFFF,
        ;
    }
}

/// Two sides up to `MAX_SIDE` have an area of at most 48 bits.
proof fn lemma_bounded_area(width: nat, height: nat)
    requires
        width <= MAX_SIDE,
        height <= MAX_SIDE,
    ensures
        width * height <= 0x1_0000_0000_0000,
        16 * width * height == 16 * (width * height),
        4 * width * height == 4 * (width * height),
{
    assert(width * height <= 0x100_0000 * 0x100_0000) by (nonlinear_arith)
        requires
            width <= 0x100_0000,
            height <= 0x100_0000,
    ;
    assert(16 * width * height == 16 * (width * height)) by (nonlinear_arith);
    assert(4 * width * height == 4 * (width * height)) by (nonlinear_arith);
}

/// A pixel inside the image lies inside the buffer.
proof fn lemma_pixel_in_range(width: nat, height: nat, x: nat, y: nat)
    requires
        x < width,
        y < height,
    ensures
        0 <= y * width <= y * width + x < width * height,
{
    assert(y * width + x < width * height && 0 <= y * width) by (nonlinear_arith)
        requires
            x < width,
            y < height,
    ;
}

} // verus!
