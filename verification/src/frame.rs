//! The frame normalizer: from the raw bytes of a captured frame to the gray
//! image of the region in which encounter badges are drawn.

use image::{DynamicImage, GrayAlphaImage, RgbaImage};
use vstd::arithmetic::div_mod::lemma_fundamental_div_mod_converse;
use vstd::prelude::*;

verus! {

/// Columns left of the region of interest.
pub const CROP_LEFT: u32 = 150;

/// Rows above the region of interest.
pub const CROP_TOP: u32 = 50;

/// Rows by which the region is shorter than half the frame.
pub const CROP_TRIM: u32 = 150;

/// What is added to every gray level of the region.
pub const BRIGHTNESS_SHIFT: i32 = -50;

/// Why a raw frame could not be normalized.
#[derive(Clone, Copy, Debug, PartialEq, Eq)]
pub enum FrameError {
    /// The pixels of the frame do not fit a buffer of this machine.
    TooLarge,
    /// The buffer ends before the last pixel of the frame.
    ShortBuffer,
    /// The frame is too low to hold the region of interest.
    TooSmall,
}

/// How a capture provider lays out the rows of a frame.
#[derive(Clone, Copy, Debug, PartialEq, Eq)]
pub enum RowLayout {
    /// Every row takes four bytes per pixel and no more.
    Packed,
    /// Rows may be padded: the buffer is split evenly among them.
    Padded,
}

/// A rectangle of pixels of a frame.
#[derive(Clone, Copy, Debug, PartialEq, Eq)]
pub struct Region {
    pub left: u32,
    pub top: u32,
    pub width: u32,
    pub height: u32,
}

/// A gray image: for each pixel, row by row, its gray level and its alpha.
#[derive(Debug, PartialEq, Eq)]
pub struct GrayFrame {
    pub width: u32,
    pub height: u32,
    pub pixels: Vec<u8>,
}

/// A gray image as mathematics.
pub struct GrayImage {
    pub width: int,
    pub height: int,
    /// Gray level and alpha of each pixel, row by row.
    pub pixels: Seq<u8>,
}

impl View for GrayFrame {
    type V = GrayImage;

    open spec fn view(&self) -> GrayImage {
        GrayImage { width: self.width as int, height: self.height as int, pixels: self.pixels@ }
    }
}

/// The distance in bytes from one row of the buffer to the next, where
/// there is one.
pub open spec fn stride_of(layout: RowLayout, len: int, width: int, height: int) -> Option<int> {
    match layout {
        RowLayout::Packed => Some(4 * width),
        RowLayout::Padded => if height > 0 {
            Some(len / height)
        } else {
            None
        },
    }
}

/// Four bytes for each pixel of the frame fit a buffer of this machine.
pub open spec fn frame_fits(width: int, height: int) -> bool {
    4 * (width * height) <= isize::MAX
}

/// The buffer reaches to the last color byte of the last pixel.
pub open spec fn holds_frame(len: int, width: int, height: int, stride: int) -> bool {
    width > 0 && height > 0 ==> stride * (height - 1) + 4 * (width - 1) + 2 < len
}

/// Byte `k` of the canonical image: the pixels row by row without padding,
/// each as red, green, blue and full alpha, where the buffer holds blue,
/// green and red at the start of each pixel.
pub open spec fn rgba_byte(buffer: Seq<u8>, width: int, stride: int, k: int) -> u8 {
    let pixel = k / 4;
    let from = stride * (pixel / width) + 4 * (pixel % width);
    if k % 4 == 3 {
        255u8
    } else {
        buffer[from + 2 - k % 4]
    }
}

/// The canonical image of a raw frame.
pub open spec fn rgba_of(buffer: Seq<u8>, width: int, height: int, stride: int) -> Seq<u8> {
    Seq::new((4 * (width * height)) as nat, |k: int| rgba_byte(buffer, width, stride, k))
}

/// Where a cut really starts: no further than the image reaches.
pub open spec fn clamped_start(start: int, size: int) -> int {
    if start <= size {
        start
    } else {
        size
    }
}

/// How far a cut really reaches: no further than the image does.
pub open spec fn clamped_extent(start: int, wanted: int, size: int) -> int {
    let room = size - clamped_start(start, size);
    if wanted <= room {
        wanted
    } else {
        room
    }
}

/// The cut of `width` by `height` pixels whose corner is at (`left`, `top`)
/// of an image that is `full_width` pixels wide, four bytes to the pixel.
pub open spec fn cropped(
    rgba: Seq<u8>,
    full_width: int,
    left: int,
    top: int,
    width: int,
    height: int,
) -> Seq<u8> {
    Seq::new(
        (4 * (width * height)) as nat,
        |k: int| rgba[4 * ((top + k / (4 * width)) * full_width + left) + k % (4 * width)],
    )
}

/// The gray level of a color.
pub open spec fn luma(red: u8, green: u8, blue: u8) -> u8 {
    ((2126 * red + 7152 * green + 722 * blue) / 10000) as u8
}

/// The gray image of a color image: for each pixel its gray level and its
/// alpha.
pub open spec fn gray_of(rgba: Seq<u8>) -> Seq<u8> {
    Seq::new(
        (2 * (rgba.len() / 4)) as nat,
        |k: int|
            if k % 2 == 0 {
                luma(rgba[4 * (k / 2)], rgba[4 * (k / 2) + 1], rgba[4 * (k / 2) + 2])
            } else {
                rgba[4 * (k / 2) + 3]
            },
    )
}

/// A gray level moved by `shift`, kept within the levels that a byte holds.
pub open spec fn shifted(level: u8, shift: int) -> u8 {
    if level + shift < 0 {
        0u8
    } else if level + shift > 255 {
        255u8
    } else {
        (level + shift) as u8
    }
}

/// The gray image with every gray level moved by `shift`; alpha stays.
pub open spec fn brightened(gray: Seq<u8>, shift: int) -> Seq<u8> {
    Seq::new(
        gray.len(),
        |k: int|
            if k % 2 == 0 {
                shifted(gray[k], shift)
            } else {
                gray[k]
            },
    )
}

/// The region of interest of a frame: from (`CROP_LEFT`, `CROP_TOP`), as
/// wide as the frame and `CROP_TRIM` rows lower than half of it. A frame of
/// less than twice `CROP_TRIM` rows has none.
pub open spec fn region_of(width: u32, height: u32) -> Option<Region> {
    if height / 2 >= CROP_TRIM {
        Some(
            Region {
                left: CROP_LEFT,
                top: CROP_TOP,
                width,
                height: (height / 2 - CROP_TRIM) as u32,
            },
        )
    } else {
        None
    }
}

/// The normalized image of a raw frame: the region of interest, cut where
/// the frame ends, in gray and darkened.
pub open spec fn normalized(buffer: Seq<u8>, width: u32, height: u32, stride: usize) -> Result<
    GrayImage,
    FrameError,
> {
    if !frame_fits(width as int, height as int) {
        Err(FrameError::TooLarge)
    } else if !holds_frame(buffer.len() as int, width as int, height as int, stride as int) {
        Err(FrameError::ShortBuffer)
    } else {
        match region_of(width, height) {
            None => Err(FrameError::TooSmall),
            Some(region) => {
                let left = clamped_start(region.left as int, width as int);
                let top = clamped_start(region.top as int, height as int);
                let w = clamped_extent(region.left as int, region.width as int, width as int);
                let h = clamped_extent(region.top as int, region.height as int, height as int);
                let color = rgba_of(buffer, width as int, height as int, stride as int);
                Ok(
                    GrayImage {
                        width: w,
                        height: h,
                        pixels: brightened(
                            gray_of(cropped(color, width as int, left, top, w, h)),
                            BRIGHTNESS_SHIFT as int,
                        ),
                    },
                )
            },
        }
    }
}

/// `image::DynamicImage::crop` on an 8-bit RGBA image made by
/// `image::ImageBuffer::from_raw`: the cut starts and ends no further than
/// the image reaches, and holds the pixels of that rectangle row by row.
#[verifier::external_body]
fn crop_rgba(rgba: Vec<u8>, width: u32, height: u32, region: Region) -> (cut: Option<Vec<u8>>)
    requires
        rgba.len() == 4 * (width * height),
    ensures
        cut is Some,
        cut matches Some(bytes) ==> bytes@ == cropped(
            rgba@,
            width as int,
            clamped_start(region.left as int, width as int),
            clamped_start(region.top as int, height as int),
            clamped_extent(region.left as int, region.width as int, width as int),
            clamped_extent(region.top as int, region.height as int, height as int),
        ),
{
    let mut image = DynamicImage::ImageRgba8(RgbaImage::from_raw(width, height, rgba)?);
    Some(image.crop(region.left, region.top, region.width, region.height).into_bytes())
}

/// `image::DynamicImage::grayscale` on an 8-bit RGBA image: each pixel
/// becomes its gray level, the weighted mean of red, green and blue in ten
/// thousandths, and its alpha. An image without columns is left out: the
/// walk over its pixels runs past its rows.
#[verifier::external_body]
fn grayscale_rgba(rgba: Vec<u8>, width: u32, height: u32) -> (gray: Option<Vec<u8>>)
    requires
        width > 0,
        rgba.len() == 4 * (width * height),
    ensures
        gray is Some,
        gray matches Some(bytes) ==> bytes@ == gray_of(rgba@),
{
    let image = DynamicImage::ImageRgba8(RgbaImage::from_raw(width, height, rgba)?);
    Some(image.grayscale().into_bytes())
}

/// `image::DynamicImage::brighten` on an 8-bit gray image with alpha: the
/// value is added to each gray level, the sum kept within 0 and 255; alpha
/// stays. An image without columns is left out, as for `grayscale`.
#[verifier::external_body]
fn brighten_gray(gray: Vec<u8>, width: u32, height: u32, value: i32) -> (lit: Option<Vec<u8>>)
    requires
        width > 0,
        gray.len() == 2 * (width * height),
        -255 <= value <= 255,
    ensures
        lit is Some,
        lit matches Some(bytes) ==> bytes@ == brightened(gray@, value as int),
{
    let image = DynamicImage::ImageLumaA8(GrayAlphaImage::from_raw(width, height, gray)?);
    Some(image.brighten(value).into_bytes())
}

/// The distance in bytes from one row of the buffer to the next, by the
/// provider's layout; `None` where there is no row or the distance does
/// not fit.
pub fn row_stride(layout: RowLayout, buffer_len: usize, width: u32, height: u32) -> (stride: Option<
    usize,
>)
    ensures
        stride == match stride_of(layout, buffer_len as int, width as int, height as int) {
            Some(distance) => if distance <= usize::MAX {
                Some(distance as usize)
            } else {
                None
            },
            None => None,
        },
{
    match layout {
        RowLayout::Packed => {
            let distance: u64 = 4 * (width as u64);
            if distance <= usize::MAX as u64 {
                Some(distance as usize)
            } else {
                None
            }
        },
        RowLayout::Padded => {
            if height > 0 {
                Some(buffer_len / (height as usize))
            } else {
                None
            }
        },
    }
}

/// The region of interest of a frame.
pub fn crop_region(width: u32, height: u32) -> (region: Option<Region>)
    ensures
        region == region_of(width, height),
{
    if height / 2 >= CROP_TRIM {
        Some(Region { left: CROP_LEFT, top: CROP_TOP, width, height: height / 2 - CROP_TRIM })
    } else {
        None
    }
}

/// Brings the raw bytes of a frame into the canonical layout: red, green,
/// blue and full alpha for each pixel, row by row and without padding.
pub fn to_rgba(buffer: &[u8], width: u32, height: u32, stride: usize) -> (canonical: Result<
    Vec<u8>,
    FrameError,
>)
    ensures
        canonical is Ok <==> frame_fits(width as int, height as int) && holds_frame(
            buffer.len() as int,
            width as int,
            height as int,
            stride as int,
        ),
        canonical matches Ok(rgba) ==> rgba@ == rgba_of(
            buffer@,
            width as int,
            height as int,
            stride as int,
        ),
        canonical matches Err(error) ==> error == (if frame_fits(width as int, height as int) {
            FrameError::ShortBuffer
        } else {
            FrameError::TooLarge
        }),
{
    let ghost w = width as int;
    let ghost h = height as int;
    let ghost s = stride as int;
    assert(0 <= w * h <= 0xffff_ffff * 0xffff_ffff) by (nonlinear_arith)
        requires
            0 <= w <= 0xffff_ffff,
            0 <= h <= 0xffff_ffff,
    ;
    let bytes: u128 = 4 * ((width as u128) * (height as u128));
    if bytes > isize::MAX as u128 {
        return Err(FrameError::TooLarge);
    }
    if width > 0 && height > 0 {
        assert(0 <= s * (h - 1) <= 0xffff_ffff_ffff_ffff * 0xffff_ffff) by (nonlinear_arith)
            requires
                0 <= s <= 0xffff_ffff_ffff_ffff,
                0 <= h - 1 <= 0xffff_ffff,
        ;
        let last: u128 = (stride as u128) * ((height - 1) as u128) + 4 * ((width - 1) as u128) + 2;
        if last >= buffer.len() as u128 {
            return Err(FrameError::ShortBuffer);
        }
    }
    let count: usize = (bytes / 4) as usize;
    let columns: usize = width as usize;
    let mut rgba: Vec<u8> = Vec::with_capacity(4 * count);
    let mut pixel: usize = 0;
    while pixel < count
        invariant
            pixel <= count,
            count == w * h,
            columns == w,
            w == width,
            h == height,
            s == stride,
            4 * count <= usize::MAX,
            holds_frame(buffer.len() as int, w, h, s),
            rgba@ == rgba_of(buffer@, w, h, s).take(4 * pixel),
        decreases count - pixel,
    {
        assert(w > 0 && h > 0) by (nonlinear_arith)
            requires
                pixel < w * h,
                0 <= w,
                0 <= h,
        ;
        let row = pixel / columns;
        let column = pixel % columns;
        assert(row < h) by (nonlinear_arith)
            requires
                row == pixel as int / w,
                pixel < w * h,
                w > 0,
        ;
        assert(s * row <= s * (h - 1)) by (nonlinear_arith)
            requires
                0 <= row <= h - 1,
                0 <= s,
        ;
        assert(0 <= s * row) by (nonlinear_arith)
            requires
                0 <= row,
                0 <= s,
        ;
        let from = stride * row + 4 * column;
        rgba.push(buffer[from + 2]);
        rgba.push(buffer[from + 1]);
        rgba.push(buffer[from]);
        rgba.push(255);
        proof {
            let whole = rgba_of(buffer@, w, h, s);
            assert forall|k: int| 4 * pixel <= k < 4 * pixel + 4 implies rgba@[k] == whole[k] by {
                assert(k / 4 == pixel);
            }
            assert(rgba@ =~= whole.take(4 * pixel + 4));
        }
        pixel += 1;
    }
    proof {
        let whole = rgba_of(buffer@, w, h, s);
        assert(whole.take(4 * pixel) =~= whole);
    }
    Ok(rgba)
}

/// Normalizes a raw frame: canonical layout, the region of interest, gray,
/// darkened.
pub fn normalize(buffer: &[u8], width: u32, height: u32, stride: usize) -> (frame: Result<
    GrayFrame,
    FrameError,
>)
    ensures
        frame matches Ok(gray) ==> normalized(buffer@, width, height, stride) == Ok::<
            GrayImage,
            FrameError,
        >(gray@),
        frame matches Err(error) ==> normalized(buffer@, width, height, stride) == Err::<
            GrayImage,
            FrameError,
        >(error),
{
    let rgba = match to_rgba(buffer, width, height, stride) {
        Ok(rgba) => rgba,
        Err(error) => {
            return Err(error);
        },
    };
    let region = match crop_region(width, height) {
        Some(region) => region,
        None => {
            return Err(FrameError::TooSmall);
        },
    };
    let left = if CROP_LEFT <= width {
        CROP_LEFT
    } else {
        width
    };
    let cut_width = width - left;
    let cut_height = region.height;
    let ghost w = cut_width as int;
    let ghost h = cut_height as int;
    assert(0 <= w * h <= width * height) by (nonlinear_arith)
        requires
            0 <= w <= width,
            0 <= h <= height,
    ;
    if cut_width == 0 || cut_height == 0 {
        let pixels: Vec<u8> = Vec::new();
        proof {
            assert(w * h == 0) by (nonlinear_arith)
                requires
                    w == 0 || h == 0,
            ;
            let color = rgba_of(buffer@, width as int, height as int, stride as int);
            let cut = cropped(color, width as int, left as int, CROP_TOP as int, w, h);
            assert(brightened(gray_of(cut), BRIGHTNESS_SHIFT as int) =~= pixels@);
        }
        return Ok(GrayFrame { width: cut_width, height: cut_height, pixels });
    }
    let cut = crop_rgba(rgba, width, height, region).unwrap();
    let gray = grayscale_rgba(cut, cut_width, cut_height).unwrap();
    let lit = brighten_gray(gray, cut_width, cut_height, BRIGHTNESS_SHIFT).unwrap();
    Ok(GrayFrame { width: cut_width, height: cut_height, pixels: lit })
}

/// What the normalizer makes of each pixel of the region: the pixel in
/// column `x` and row `y` of the result is the one `CROP_LEFT` columns
/// further right and `CROP_TOP` rows further down in the frame, its gray
/// level darkened by `BRIGHTNESS_SHIFT` and its alpha full. The region is
/// as wide as the frame is beyond `CROP_LEFT`.
pub proof fn lemma_normalized_pixel(
    buffer: Seq<u8>,
    width: u32,
    height: u32,
    stride: usize,
    x: int,
    y: int,
)
    requires
        normalized(buffer, width, height, stride) matches Ok(image) && 0 <= x < image.width && 0
            <= y < image.height,
    ensures
        normalized(buffer, width, height, stride) matches Ok(image) && {
            let from = stride * (y + CROP_TOP) + 4 * (x + CROP_LEFT);
            &&& image.width == width - CROP_LEFT
            &&& image.height == height / 2 - CROP_TRIM
            &&& image.pixels.len() == 2 * (image.width * image.height)
            &&& 0 <= from && from + 2 < buffer.len()
            &&& image.pixels[2 * (y * image.width + x)] == shifted(
                luma(buffer[from + 2], buffer[from + 1], buffer[from]),
                BRIGHTNESS_SHIFT as int,
            )
            &&& image.pixels[2 * (y * image.width + x) + 1] == 255
        },
{
    let full_width = width as int;
    let full_height = height as int;
    let s = stride as int;
    let left = CROP_LEFT as int;
    let top = CROP_TOP as int;
    let w = full_width - left;
    let h = full_height / 2 - CROP_TRIM;
    let color = rgba_of(buffer, full_width, full_height, s);
    let cut = cropped(color, full_width, left, top, w, h);
    let gray = gray_of(cut);
    let pixel = y * w + x;
    let source = (top + y) * full_width + left + x;
    assert(0 <= pixel < w * h && 0 <= y * w) by (nonlinear_arith)
        requires
            0 <= x < w,
            0 <= y < h,
            pixel == y * w + x,
    ;
    assert(0 <= source < full_width * full_height && 0 <= (top + y) * full_width) by (nonlinear_arith)
        requires
            0 <= left + x < full_width,
            0 <= top + y < full_height,
            source == (top + y) * full_width + left + x,
    ;
    assert(s * (top + y) <= s * (full_height - 1) && 0 <= s * (top + y)) by (nonlinear_arith)
        requires
            0 <= top + y <= full_height - 1,
            0 <= s,
    ;
    lemma_fundamental_div_mod_converse(source, full_width, top + y, left + x);
    assert(cut.len() == 4 * (w * h));
    assert(cut.len() / 4 == w * h);
    assert forall|c: int| 0 <= c < 4 implies #[trigger] cut[4 * pixel + c] == rgba_byte(
        buffer,
        full_width,
        s,
        4 * source + c,
    ) by {
        assert(4 * pixel + c == y * (4 * w) + (4 * x + c)) by (nonlinear_arith)
            requires
                pixel == y * w + x,
        ;
        lemma_fundamental_div_mod_converse(4 * pixel + c, 4 * w, y, 4 * x + c);
        assert(4 * ((top + y) * full_width + left) + (4 * x + c) == 4 * source + c);
        assert(0 <= 4 * source + c < 4 * (full_width * full_height));
    }
    assert(cut[4 * pixel + 0] == buffer[s * (top + y) + 4 * (left + x) + 2]) by {
        assert((4 * source + 0) / 4 == source);
    }
    assert(cut[4 * pixel + 1] == buffer[s * (top + y) + 4 * (left + x) + 1]) by {
        assert((4 * source + 1) / 4 == source);
    }
    assert(cut[4 * pixel + 2] == buffer[s * (top + y) + 4 * (left + x)]) by {
        assert((4 * source + 2) / 4 == source);
    }
    assert(cut[4 * pixel + 3] == 255) by {
        assert((4 * source + 3) / 4 == source);
    }
    assert((2 * pixel) / 2 == pixel && (2 * pixel + 1) / 2 == pixel);
    assert(gray[2 * pixel] == luma(cut[4 * pixel], cut[4 * pixel + 1], cut[4 * pixel + 2]));
    assert(gray[2 * pixel + 1] == cut[4 * pixel + 3]);
}

} // verus!
