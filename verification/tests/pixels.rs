use iced_texture_cache::blur::Crop;
use iced_texture_cache::pixels::{
    blur_boxes, box_pass_horizontal, box_pass_vertical, box_sums_fit_for, can_crop,
    can_downsample, crop_out, downsample,
};
use iced_texture_cache::size::PixelSize;

const OPAQUE: u8 = 255;

fn buffer(size: PixelSize, f: impl Fn(u32, u32) -> [u8; 4]) -> Vec<u8> {
    let mut out = Vec::with_capacity((size.width * size.height * 4) as usize);
    for y in 0..size.height {
        for x in 0..size.width {
            out.extend_from_slice(&f(x, y));
        }
    }
    out
}

fn pixel(buf: &[u8], size: PixelSize, x: u32, y: u32) -> [u8; 4] {
    let start = ((y * size.width + x) * 4) as usize;
    [buf[start], buf[start + 1], buf[start + 2], buf[start + 3]]
}

#[test]
fn the_kernel_clamps_to_the_edge_instead_of_padding_with_zeros() {
    let size = PixelSize::new(32, 32);
    let mut buf = buffer(size, |_, _| [40, 80, 120, OPAQUE]);

    // The three box widths a sigma of 5 pixels asks for.
    blur_boxes(&mut buf, size, [9, 9, 11]);

    for (x, y) in [(0, 0), (31, 0), (0, 31), (31, 31), (0, 16), (16, 31)] {
        assert_eq!(
            pixel(&buf, size, x, y),
            [40, 80, 120, OPAQUE],
            "a uniform texture is its own blur at ({x}, {y})"
        );
    }
}

#[test]
fn downsampling_averages_whole_and_partial_blocks() {
    let size = PixelSize::new(4, 2);
    let src = buffer(size, |x, _| [(x * 40) as u8, 0, 0, OPAQUE]);

    let (out, out_size) = downsample(&src, size, 2);
    assert_eq!(out_size, PixelSize::new(2, 1));
    assert_eq!(pixel(&out, out_size, 0, 0), [20, 0, 0, OPAQUE]);
    assert_eq!(pixel(&out, out_size, 1, 0), [100, 0, 0, OPAQUE]);

    let odd = PixelSize::new(3, 1);
    let src = buffer(odd, |x, _| [(x * 40) as u8, 0, 0, OPAQUE]);
    let (out, out_size) = downsample(&src, odd, 2);
    assert_eq!(out_size, PixelSize::new(2, 1));
    assert_eq!(pixel(&out, out_size, 0, 0), [20, 0, 0, OPAQUE]);
    assert_eq!(pixel(&out, out_size, 1, 0), [80, 0, 0, OPAQUE]);

    let (same, same_size) = downsample(&src, odd, 1);
    assert_eq!(same_size, odd);
    assert_eq!(same, src);
}

#[test]
fn a_crop_lifts_exactly_its_rectangle() {
    let size = PixelSize::new(4, 4);
    let src = buffer(size, |x, y| [x as u8, y as u8, 0, OPAQUE]);
    let window = Crop {
        x: 1,
        y: 2,
        width: 2,
        height: 2,
    };

    let out = crop_out(&src, size, window);
    let out_size = PixelSize::new(2, 2);
    assert_eq!(out.len(), 16);
    assert_eq!(pixel(&out, out_size, 0, 0), [1, 2, 0, OPAQUE]);
    assert_eq!(pixel(&out, out_size, 1, 1), [2, 3, 0, OPAQUE]);
}

#[test]
fn a_block_average_rounds_to_nearest() {
    // 0 and 1 average to 0.5, which rounds up; 0, 0, 0, 1 to 0.25, down.
    let size = PixelSize::new(2, 2);
    let src = buffer(size, |x, y| [(x & y) as u8, x as u8, 0, 3]);
    let (out, out_size) = downsample(&src, size, 4);
    assert_eq!(out_size, PixelSize::new(1, 1));
    assert_eq!(out, vec![0, 1, 0, 3]);
}

#[test]
fn a_horizontal_box_averages_its_window_and_repeats_the_edges() {
    let size = PixelSize::new(4, 1);
    let src = buffer(size, |x, _| [(x * 30) as u8, 0, 0, OPAQUE]);
    let mut dst = vec![0u8; src.len()];
    box_pass_horizontal(&src, &mut dst, size, 1);
    // Windows over 0, 30, 60, 90 with the ends repeated:
    // (0+0+30)/3 = 10, (0+30+60)/3 = 30, (30+60+90)/3 = 60, (60+90+90)/3 = 80.
    assert_eq!(pixel(&dst, size, 0, 0), [10, 0, 0, OPAQUE]);
    assert_eq!(pixel(&dst, size, 1, 0), [30, 0, 0, OPAQUE]);
    assert_eq!(pixel(&dst, size, 2, 0), [60, 0, 0, OPAQUE]);
    assert_eq!(pixel(&dst, size, 3, 0), [80, 0, 0, OPAQUE]);
}

#[test]
fn a_vertical_box_runs_down_the_columns() {
    let size = PixelSize::new(1, 3);
    let src = buffer(size, |_, y| [0, (y * 3) as u8, 0, OPAQUE]);
    let mut dst = vec![0u8; src.len()];
    box_pass_vertical(&src, &mut dst, size, 1);
    // (0+0+3)/3 = 1, (0+3+6)/3 = 3, (3+6+6)/3 = 5.
    assert_eq!(pixel(&dst, size, 0, 0), [0, 1, 0, OPAQUE]);
    assert_eq!(pixel(&dst, size, 0, 1), [0, 3, 0, OPAQUE]);
    assert_eq!(pixel(&dst, size, 0, 2), [0, 5, 0, OPAQUE]);
}

#[test]
fn a_box_of_radius_zero_copies() {
    let size = PixelSize::new(2, 2);
    let src = buffer(size, |x, y| [x as u8, y as u8, 7, 9]);
    let mut dst = vec![1u8; src.len()];
    box_pass_horizontal(&src, &mut dst, size, 0);
    assert_eq!(dst, src);
    let mut dst = vec![1u8; src.len()];
    box_pass_vertical(&src, &mut dst, size, 0);
    assert_eq!(dst, src);
}

#[test]
fn unit_boxes_are_the_identity() {
    let size = PixelSize::new(3, 2);
    let src = buffer(size, |x, y| [(x * 50) as u8, (y * 90) as u8, 5, 200]);
    let mut buf = src.clone();
    blur_boxes(&mut buf, size, [1, 1, 1]);
    assert_eq!(buf, src);
}

#[test]
fn a_blur_spreads_a_bright_pixel_and_keeps_the_bytes_past_the_picture() {
    let size = PixelSize::new(3, 3);
    let mut buf = buffer(size, |x, y| {
        if x == 1 && y == 1 {
            [0, 0, 0, 255]
        } else {
            [0, 0, 0, 0]
        }
    });
    buf.extend_from_slice(&[1, 2, 3]);
    blur_boxes(&mut buf, size, [3, 1, 1]);
    // One 3x3 box: every pixel's window holds the bright one, 255 / 9 = 28.3.
    for y in 0..3 {
        for x in 0..3 {
            assert_eq!(pixel(&buf, size, x, y)[3], 28);
        }
    }
    assert_eq!(&buf[36..], &[1, 2, 3]);
}

#[test]
fn preconditions_are_checked_before_the_calls() {
    let size = PixelSize::new(4, 4);
    let whole = Crop { x: 0, y: 0, width: 4, height: 4 };
    let past_the_edge = Crop { x: 1, y: 3, width: 4, height: 2 };
    assert!(can_crop(64, size, whole));
    assert!(!can_crop(63, size, whole));
    assert!(!can_crop(64, size, past_the_edge));
    assert!(can_crop(0, size, Crop { x: 9, y: 9, width: 3, height: 0 }));

    assert!(can_downsample(0, PixelSize::new(0, 0), 1), "a factor of one always can");
    assert!(can_downsample(64, size, 8));
    assert!(!can_downsample(63, size, 2), "the buffer is short of the picture");
    assert!(!can_downsample(0, PixelSize::new(0, 4), 2), "nothing to average");

    assert!(box_sums_fit_for(1));
    assert!(box_sums_fit_for(255));
    assert!(!box_sums_fit_for(0));
    assert!(!box_sums_fit_for(u32::MAX));
}

#[test]
fn boxes_that_reach_no_neighbour_leave_any_buffer_alone() {
    let mut short = vec![1u8, 2, 3];
    blur_boxes(&mut short, PixelSize::new(10, 10), [1, 1, 1]);
    assert_eq!(short, vec![1, 2, 3]);

    let mut lopsided = vec![9u8; 8];
    blur_boxes(&mut lopsided, PixelSize::new(0, 5), [2, 1, 2]);
    assert_eq!(lopsided, vec![9u8; 8]);
}
