use encounter::frame::GrayFrame;
use encounter::planar::{planar_from_rgb, to_planar, LayoutError, PlanarImage};

#[test]
fn planar_order_puts_each_channel_in_its_own_plane() {
    let rgb = vec![1, 2, 3, 4, 5, 6, 7, 8, 9, 10, 11, 12];
    assert_eq!(
        planar_from_rgb(&rgb, 2, 2),
        Ok(PlanarImage {
            channels: 3,
            height: 2,
            width: 2,
            data: vec![1, 4, 7, 10, 2, 5, 8, 11, 3, 6, 9, 12],
        })
    );
    let wide = vec![1, 2, 3, 4, 5, 6, 7, 8, 9, 10, 11, 12, 13, 14, 15, 16, 17, 18];
    assert_eq!(
        planar_from_rgb(&wide, 3, 2).unwrap().data,
        vec![1, 4, 7, 10, 13, 16, 2, 5, 8, 11, 14, 17, 3, 6, 9, 12, 15, 18]
    );
}

#[test]
fn planar_order_of_a_single_pixel_and_of_nothing() {
    assert_eq!(planar_from_rgb(&[9, 8, 7], 1, 1).unwrap().data, vec![9, 8, 7]);
    assert_eq!(
        planar_from_rgb(&[], 0, 4),
        Ok(PlanarImage { channels: 3, height: 4, width: 0, data: vec![] })
    );
    assert_eq!(
        planar_from_rgb(&[], 4, 0),
        Ok(PlanarImage { channels: 3, height: 0, width: 4, data: vec![] })
    );
}

#[test]
fn images_without_columns_or_rows_of_any_size_are_empty() {
    for (width, height) in [(0u32, u32::MAX), (u32::MAX, 0u32), (0, 0x8000_0000), (0, 0)] {
        assert_eq!(
            planar_from_rgb(&[], width, height),
            Ok(PlanarImage {
                channels: 3,
                height: height as usize,
                width: width as usize,
                data: vec![],
            })
        );
        let frame = GrayFrame { width, height, pixels: vec![] };
        assert_eq!(to_planar(&frame).map(|image| image.data), Ok(vec![]));
    }
    let huge = GrayFrame { width: u32::MAX, height: u32::MAX, pixels: vec![] };
    assert_eq!(to_planar(&huge), Err(LayoutError::SizeMismatch));
}

#[test]
fn bytes_that_do_not_match_the_dimensions_are_refused() {
    assert_eq!(planar_from_rgb(&[1, 2, 3, 4, 5], 2, 1), Err(LayoutError::SizeMismatch));
    assert_eq!(planar_from_rgb(&[1, 2, 3, 4, 5, 6, 7], 2, 1), Err(LayoutError::SizeMismatch));
    assert_eq!(planar_from_rgb(&[1, 2, 3], 0, 0), Err(LayoutError::SizeMismatch));
    assert_eq!(planar_from_rgb(&[], u32::MAX, u32::MAX), Err(LayoutError::SizeMismatch));
    let short = GrayFrame { width: 2, height: 1, pixels: vec![1, 255, 2] };
    assert_eq!(to_planar(&short), Err(LayoutError::SizeMismatch));
}

#[test]
fn empty_gray_frames_become_empty_planes() {
    for (width, height) in [(0u32, 0u32), (0, 1), (0, 5), (1, 0), (7, 0)] {
        let frame = GrayFrame { width, height, pixels: vec![] };
        assert_eq!(
            to_planar(&frame),
            Ok(PlanarImage {
                channels: 3,
                height: height as usize,
                width: width as usize,
                data: vec![],
            })
        );
    }
}

#[test]
fn gray_frame_becomes_three_equal_planes() {
    let frame = GrayFrame { width: 2, height: 2, pixels: vec![67, 255, 0, 255, 200, 255, 13, 255] };
    assert_eq!(
        to_planar(&frame),
        Ok(PlanarImage {
            channels: 3,
            height: 2,
            width: 2,
            data: vec![67, 0, 200, 13, 67, 0, 200, 13, 67, 0, 200, 13],
        })
    );
}
