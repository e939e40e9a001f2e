//! The tensor adapter: from the gray image to color bytes in planar,
//! channel-major order, ready to be scaled into the unit interval.

use crate::frame::GrayFrame;
use image::{DynamicImage, GrayAlphaImage};
use rten_tensor::{AsView, NdTensorView};
use vstd::arithmetic::div_mod::lemma_fundamental_div_mod_converse;
use vstd::prelude::*;

verus! {

/// The color channels of an image handed to text recognition.
pub const CHANNELS: usize = 3;

/// Image data whose size does not agree with its dimensions.
#[derive(Clone, Copy, Debug, PartialEq, Eq)]
pub enum LayoutError {
    /// The bytes are not one per channel of each pixel.
    SizeMismatch,
    /// The color bytes of the image do not fit a buffer of this machine.
    TooLarge,
}

/// An image in planar order: channel after channel, each row by row.
#[derive(Debug, PartialEq, Eq)]
pub struct PlanarImage {
    pub channels: usize,
    pub height: usize,
    pub width: usize,
    pub data: Vec<u8>,
}

/// The bytes of an interleaved image, where the channels of a pixel stand
/// side by side, in planar order: byte `k` belongs to channel
/// `k / (height * width)` of pixel `k % (height * width)`.
pub open spec fn planar_of(interleaved: Seq<u8>, height: int, width: int, channels: int) -> Seq<u8> {
    Seq::new(
        (channels * (height * width)) as nat,
        |k: int| interleaved[channels * (k % (height * width)) + k / (height * width)],
    )
}

/// What `image::DynamicImage::into_rgb8` returns for an 8-bit gray image
/// with alpha of the given width and height: the bytes of its color form.
pub uninterp spec fn rgb_of_gray(gray: Seq<u8>, width: u32, height: u32) -> Seq<u8>;

/// `image::DynamicImage::into_rgb8` on an 8-bit gray image with alpha made
/// by `image::ImageBuffer::from_raw`. Three bytes come back for each pixel;
/// which bytes is only named. An image whose color bytes are more than a
/// buffer can hold is left out: the conversion gives up on it.
#[verifier::external_body]
fn gray_to_rgb(gray: Vec<u8>, width: u32, height: u32) -> (rgb: Option<Vec<u8>>)
    requires
        gray.len() == 2 * (width * height),
        3 * (width * height) <= isize::MAX,
    ensures
        rgb is Some,
        rgb matches Some(bytes) ==> bytes@ == rgb_of_gray(gray@, width, height),
        rgb matches Some(bytes) ==> bytes@.len() == 3 * (width * height),
{
    let image = DynamicImage::ImageLumaA8(GrayAlphaImage::from_raw(width, height, gray)?);
    Some(image.into_rgb8().into_raw())
}

/// `rten_tensor::NdTensorView::from_data_with_strides`, `permuted`,
/// `to_tensor` and `into_data`: views packed interleaved bytes as height by
/// width by channels, moves the channel axis to the front and copies the
/// bytes out in that order. The view is refused exactly where the bytes
/// are fewer than the shape asks for. A shape with an empty axis is left
/// out: the sizes of its other axes are multiplied unchecked.
#[verifier::external_body]
fn interleaved_to_planar(
    data: &[u8],
    shape: [usize; 3],
    strides: [usize; 3],
    order: [usize; 3],
) -> (planar: Option<Vec<u8>>)
    requires
        shape[0] > 0,
        shape[1] > 0,
        shape[2] > 0,
        shape[2] * (shape[0] * shape[1]) <= usize::MAX,
        strides[0] == shape[1] * shape[2],
        strides[1] == shape[2],
        strides[2] == 1,
        order[0] == 2,
        order[1] == 0,
        order[2] == 1,
    ensures
        planar is Some <==> data.len() >= shape[2] * (shape[0] * shape[1]),
        planar matches Some(bytes) ==> bytes@ == planar_of(
            data@,
            shape[0] as int,
            shape[1] as int,
            shape[2] as int,
        ),
{
    let view = NdTensorView::from_data_with_strides(shape, data, strides).ok()?;
    Some(view.permuted(order).to_tensor().into_data())
}

/// The planar form of packed color bytes, three to the pixel. Fails
/// exactly where the bytes are not three for each pixel.
pub fn planar_from_rgb(rgb: &[u8], width: u32, height: u32) -> (planar: Result<
    PlanarImage,
    LayoutError,
>)
    ensures
        planar is Ok <==> rgb.len() == CHANNELS * (height * width),
        planar matches Ok(image) ==> image.channels == CHANNELS && image.height == height
            && image.width == width && image.data@ == planar_of(
            rgb@,
            height as int,
            width as int,
            CHANNELS as int,
        ),
{
    let ghost w = width as int;
    let ghost h = height as int;
    assert(0 <= h * w <= 0xffff_ffff * 0xffff_ffff) by (nonlinear_arith)
        requires
            0 <= w <= 0xffff_ffff,
            0 <= h <= 0xffff_ffff,
    ;
    let bytes: u128 = 3 * ((height as u128) * (width as u128));
    if bytes != rgb.len() as u128 {
        return Err(LayoutError::SizeMismatch);
    }
    if height == 0 || width == 0 {
        assert(h * w == 0) by (nonlinear_arith)
            requires
                h == 0 || w == 0,
        ;
        let data: Vec<u8> = Vec::new();
        assert(data@ =~= planar_of(rgb@, h, w, CHANNELS as int));
        return Ok(
            PlanarImage { channels: CHANNELS, height: height as usize, width: width as usize, data },
        );
    }
    assert(w * 3 <= 3 * (h * w)) by (nonlinear_arith)
        requires
            0 <= w,
            1 <= h,
    ;
    let row_stride: usize = width as usize * CHANNELS;
    let shape: [usize; 3] = [height as usize, width as usize, CHANNELS];
    let strides: [usize; 3] = [row_stride, CHANNELS, 1];
    let order: [usize; 3] = [2, 0, 1];
    match interleaved_to_planar(rgb, shape, strides, order) {
        Some(data) => Ok(
            PlanarImage { channels: CHANNELS, height: height as usize, width: width as usize, data },
        ),
        None => Err(LayoutError::SizeMismatch),
    }
}

/// The image holds two bytes for each of its pixels.
pub open spec fn holds_gray(frame: &GrayFrame) -> bool {
    frame.pixels.len() == 2 * (frame.width * frame.height)
}

/// Three bytes for each pixel of the image fit a buffer of this machine.
pub open spec fn color_fits(frame: &GrayFrame) -> bool {
    CHANNELS * (frame.width * frame.height) <= isize::MAX
}

/// The planar color form of a gray image. Fails exactly where the image
/// does not hold two bytes for each pixel, or where three bytes for each
/// pixel are more than a buffer of this machine holds.
pub fn to_planar(frame: &GrayFrame) -> (planar: Result<PlanarImage, LayoutError>)
    ensures
        planar is Ok <==> holds_gray(frame) && color_fits(frame),
        planar matches Err(error) ==> error == (if holds_gray(frame) {
            LayoutError::TooLarge
        } else {
            LayoutError::SizeMismatch
        }),
        planar matches Ok(image) ==> image.channels == CHANNELS && image.height == frame.height
            && image.width == frame.width && image.data@ == planar_of(
            rgb_of_gray(frame.pixels@, frame.width, frame.height),
            frame.height as int,
            frame.width as int,
            CHANNELS as int,
        ),
{
    let ghost w = frame.width as int;
    let ghost h = frame.height as int;
    assert(0 <= w * h <= 0xffff_ffff * 0xffff_ffff) by (nonlinear_arith)
        requires
            0 <= w <= 0xffff_ffff,
            0 <= h <= 0xffff_ffff,
    ;
    let bytes: u128 = 2 * ((frame.width as u128) * (frame.height as u128));
    if bytes != frame.pixels.len() as u128 {
        return Err(LayoutError::SizeMismatch);
    }
    if bytes / 2 * 3 > isize::MAX as u128 {
        return Err(LayoutError::TooLarge);
    }
    assert(h * w == w * h) by (nonlinear_arith);
    let rgb = gray_to_rgb(frame.pixels.clone(), frame.width, frame.height).unwrap();
    planar_from_rgb(rgb.as_slice(), frame.width, frame.height)
}

/// Where the bytes of a pixel stand in planar order: the byte of channel
/// `channel` of the pixel in column `x` and row `y` stands in the plane of
/// that channel, at the place of the pixel in row-major order.
pub proof fn lemma_planar_byte(
    interleaved: Seq<u8>,
    height: int,
    width: int,
    channels: int,
    channel: int,
    y: int,
    x: int,
)
    requires
        0 <= channel < channels,
        0 <= y < height,
        0 <= x < width,
    ensures
        planar_of(interleaved, height, width, channels).len() == channels * (height * width),
        0 <= channel * (height * width) + y * width + x < channels * (height * width),
        planar_of(interleaved, height, width, channels)[channel * (height * width) + y * width + x]
            == interleaved[channels * (y * width + x) + channel],
{
    let plane = height * width;
    let pixel = y * width + x;
    assert(0 <= pixel < plane && 0 <= y * width) by (nonlinear_arith)
        requires
            0 <= x < width,
            0 <= y < height,
            pixel == y * width + x,
            plane == height * width,
    ;
    assert(0 <= channel * plane && channel * plane + plane <= channels * plane) by (nonlinear_arith)
        requires
            0 <= channel < channels,
            0 <= plane,
    ;
    lemma_fundamental_div_mod_converse(channel * plane + pixel, plane, channel, pixel);
}

} // verus!
