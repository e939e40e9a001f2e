use encounter::frame::{
    crop_region, normalize, row_stride, to_rgba, FrameError, GrayFrame, Region, RowLayout,
};

fn bgra_frame(width: usize, height: usize, stride: usize) -> Vec<u8> {
    let mut buffer = vec![0u8; stride * height];
    for y in 0..height {
        for x in 0..width {
            let at = stride * y + 4 * x;
            buffer[at] = ((x + 3 * y) % 251) as u8;
            buffer[at + 1] = ((2 * x + y) % 241) as u8;
            buffer[at + 2] = ((x + y + 7) % 239) as u8;
            buffer[at + 3] = 9;
        }
    }
    buffer
}

#[test]
fn canonical_layout_swaps_blue_and_red_and_drops_padding() {
    let buffer = vec![
        1, 2, 3, 0, 4, 5, 6, 0, 99, 99, 99, 99, // first row, padded
        7, 8, 9, 0, 10, 11, 12, 0, 99, 99, 99, 99, // second row, padded
    ];
    let rgba = to_rgba(&buffer, 2, 2, 12).unwrap();
    assert_eq!(rgba, vec![3, 2, 1, 255, 6, 5, 4, 255, 9, 8, 7, 255, 12, 11, 10, 255]);
}

#[test]
fn canonical_layout_needs_the_last_color_byte_and_no_more() {
    let buffer = vec![1, 2, 3, 0, 4, 5, 6];
    assert_eq!(to_rgba(&buffer, 2, 1, 8), Ok(vec![3, 2, 1, 255, 6, 5, 4, 255]));
    assert_eq!(to_rgba(&buffer[..6], 2, 1, 8), Err(FrameError::ShortBuffer));
    assert_eq!(to_rgba(&buffer, 1, 2, 8), Err(FrameError::ShortBuffer));
    assert_eq!(to_rgba(&[], 0, 5, 8), Ok(vec![]));
    assert_eq!(to_rgba(&[], 5, 0, 8), Ok(vec![]));
}

#[test]
fn frames_beyond_the_machine_are_refused() {
    assert_eq!(to_rgba(&[], u32::MAX, u32::MAX, 4), Err(FrameError::TooLarge));
    assert_eq!(normalize(&[], u32::MAX, u32::MAX, 4), Err(FrameError::TooLarge));
}

#[test]
fn stride_follows_the_layout() {
    assert_eq!(row_stride(RowLayout::Packed, 1000, 7, 3), Some(28));
    assert_eq!(row_stride(RowLayout::Padded, 1000, 7, 3), Some(333));
    assert_eq!(row_stride(RowLayout::Padded, 96, 7, 3), Some(32));
    assert_eq!(row_stride(RowLayout::Padded, 96, 7, 0), None);
    assert_eq!(row_stride(RowLayout::Packed, 96, 7, 0), Some(28));
}

#[test]
fn region_of_interest_is_fixed() {
    assert_eq!(
        crop_region(1920, 1080),
        Some(Region { left: 150, top: 50, width: 1920, height: 390 })
    );
    assert_eq!(crop_region(10, 300), Some(Region { left: 150, top: 50, width: 10, height: 0 }));
    assert_eq!(crop_region(10, 301), Some(Region { left: 150, top: 50, width: 10, height: 0 }));
    assert_eq!(crop_region(10, 302), Some(Region { left: 150, top: 50, width: 10, height: 1 }));
    assert_eq!(crop_region(1920, 299), None);
    assert_eq!(crop_region(1920, 0), None);
}

#[test]
fn normalized_frame_is_the_darkened_gray_region() {
    let (width, height, stride) = (152usize, 302usize, 616usize);
    let mut buffer = bgra_frame(width, height, stride);
    let first = stride * 50 + 4 * 150;
    buffer[first..first + 4].copy_from_slice(&[50, 100, 200, 0]);
    let second = stride * 50 + 4 * 151;
    buffer[second..second + 4].copy_from_slice(&[30, 20, 10, 0]);
    let frame = normalize(&buffer, width as u32, height as u32, stride).unwrap();
    assert_eq!(frame, GrayFrame { width: 2, height: 1, pixels: vec![67, 255, 0, 255] });
}

#[test]
fn normalized_frame_follows_the_formula_everywhere() {
    let (width, height, stride) = (160usize, 310usize, 644usize);
    let buffer = bgra_frame(width, height, stride);
    let frame = normalize(&buffer, width as u32, height as u32, stride).unwrap();
    assert_eq!((frame.width, frame.height), (10, 5));
    let mut expected = vec![];
    for y in 0..5usize {
        for x in 0..10usize {
            let at = stride * (y + 50) + 4 * (x + 150);
            let (b, g, r) = (buffer[at] as u32, buffer[at + 1] as u32, buffer[at + 2] as u32);
            let luma = (2126 * r + 7152 * g + 722 * b) / 10000;
            expected.push(luma.saturating_sub(50) as u8);
            expected.push(255);
        }
    }
    assert_eq!(frame.pixels, expected);
}

#[test]
fn narrow_frames_leave_an_empty_region() {
    let buffer = bgra_frame(100, 302, 400);
    let frame = normalize(&buffer, 100, 302, 400).unwrap();
    assert_eq!(frame, GrayFrame { width: 0, height: 1, pixels: vec![] });
    let buffer = bgra_frame(150, 400, 600);
    let frame = normalize(&buffer, 150, 400, 600).unwrap();
    assert_eq!(frame, GrayFrame { width: 0, height: 50, pixels: vec![] });
}

#[test]
fn low_frames_have_no_region() {
    let buffer = bgra_frame(200, 299, 800);
    assert_eq!(normalize(&buffer, 200, 299, 800), Err(FrameError::TooSmall));
    assert_eq!(normalize(&buffer[..100], 200, 299, 800), Err(FrameError::ShortBuffer));
}
