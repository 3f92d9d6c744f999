use tg_rcore_tutorial::display::{
    scanout_size, Display, DisplayError, FrameBuffer, PixelFormat, DEFAULT_VIRTIO_MMIO_BASE,
};
use tg_rcore_tutorial::raster::{clear, encode, fill_rect};

fn pixel(fb: &mut FrameBuffer, x: usize, y: usize) -> [u8; 4] {
    let off = fb.byte_offset(x, y).unwrap();
    let bytes = fb.as_bytes_mut();
    [bytes[off], bytes[off + 1], bytes[off + 2], bytes[off + 3]]
}

#[test]
fn from_scanout_builds_packed_argb_view() {
    let mut raw = vec![0u8; 40];
    let mut fb = FrameBuffer::from_scanout(2, 3, &mut raw).unwrap();
    assert_eq!(fb.width, 2);
    assert_eq!(fb.height, 3);
    assert_eq!(fb.stride, 8);
    assert_eq!(fb.bytes_per_pixel, 4);
    assert_eq!(fb.format, PixelFormat::Argb8888);
    assert!(fb.has_alpha);
    assert_eq!(fb.as_bytes_mut().len(), 24);
}

#[test]
fn from_scanout_rejects_short_buffer() {
    let mut raw = vec![0u8; 23];
    let r = FrameBuffer::from_scanout(2, 3, &mut raw);
    assert_eq!(r.err(), Some(DisplayError::InvalidFrameBuffer));
}

#[test]
fn from_scanout_rejects_overflowing_size() {
    let mut raw = vec![0u8; 16];
    let r = FrameBuffer::from_scanout(usize::MAX / 4, 8, &mut raw);
    assert_eq!(r.err(), Some(DisplayError::InvalidFrameBuffer));
}

#[test]
fn from_scanout_accepts_empty_scanout_of_zero_height() {
    let mut raw: Vec<u8> = Vec::new();
    let mut fb = FrameBuffer::from_scanout(5, 0, &mut raw).unwrap();
    assert_eq!(fb.as_bytes_mut().len(), 0);
}

#[test]
fn byte_offset_inside_and_outside() {
    let mut raw = vec![0u8; 48];
    let fb = FrameBuffer::from_scanout(3, 4, &mut raw).unwrap();
    assert_eq!(fb.byte_offset(0, 0), Some(0));
    assert_eq!(fb.byte_offset(2, 1), Some(12 + 8));
    assert_eq!(fb.byte_offset(2, 3), Some(44));
    assert_eq!(fb.byte_offset(3, 0), None);
    assert_eq!(fb.byte_offset(0, 4), None);
}

#[test]
fn scanout_size_requires_nonzero_sides() {
    assert_eq!(scanout_size(0, 480), Err(DisplayError::InvalidFrameBuffer));
    assert_eq!(scanout_size(640, 0), Err(DisplayError::InvalidFrameBuffer));
    assert_eq!(scanout_size(640, 480), Ok((640, 480)));
}

#[test]
fn display_without_device_is_unsupported() {
    assert_eq!(
        Display::new_virtio_gpu(DEFAULT_VIRTIO_MMIO_BASE).err(),
        Some(DisplayError::UnsupportedArch)
    );
    let mut d = Display {};
    assert_eq!(d.framebuffer().err(), Some(DisplayError::UnsupportedArch));
    assert_eq!(d.flush(), Err(DisplayError::UnsupportedArch));
}

#[test]
fn encode_orders_channels_by_format() {
    let c = (1, 2, 3);
    assert_eq!(encode(c, PixelFormat::Xrgb8888), [3, 2, 1, 0x00]);
    assert_eq!(encode(c, PixelFormat::Argb8888), [3, 2, 1, 0xFF]);
    assert_eq!(encode(c, PixelFormat::Bgrx8888), [0x00, 1, 2, 3]);
    assert_eq!(encode(c, PixelFormat::Bgra8888), [0xFF, 1, 2, 3]);
    assert_eq!(encode(c, PixelFormat::Unknown), [3, 2, 1, 0x00]);
}

#[test]
fn clear_sets_every_pixel() {
    let mut raw = vec![7u8; 3 * 2 * 4];
    let mut fb = FrameBuffer::from_scanout(3, 2, &mut raw).unwrap();
    clear(&mut fb, (10, 20, 30));
    for y in 0..2 {
        for x in 0..3 {
            assert_eq!(pixel(&mut fb, x, y), [30, 20, 10, 0xFF]);
        }
    }
}

#[test]
fn fill_rect_is_cut_to_the_framebuffer() {
    let mut raw = vec![0u8; 4 * 4 * 4];
    let mut fb = FrameBuffer::from_scanout(4, 4, &mut raw).unwrap();
    fill_rect(&mut fb, 2, 1, 5, 2, (9, 8, 7));
    for y in 0..4 {
        for x in 0..4 {
            let expected = if x >= 2 && (1..3).contains(&y) { [7, 8, 9, 0xFF] } else { [0, 0, 0, 0] };
            assert_eq!(pixel(&mut fb, x, y), expected, "pixel ({x}, {y})");
        }
    }
}

#[test]
fn fill_rect_with_empty_or_outside_rectangle_changes_nothing() {
    let mut raw = vec![0u8; 2 * 2 * 4];
    let mut fb = FrameBuffer::from_scanout(2, 2, &mut raw).unwrap();
    fill_rect(&mut fb, 0, 0, 0, 2, (1, 1, 1));
    fill_rect(&mut fb, 0, 0, 2, 0, (1, 1, 1));
    fill_rect(&mut fb, 2, 0, 3, 3, (1, 1, 1));
    fill_rect(&mut fb, usize::MAX, usize::MAX, 5, 5, (1, 1, 1));
    assert!(fb.as_bytes_mut().iter().all(|&b| b == 0));
}

#[test]
fn clear_skips_pixels_past_a_short_buffer() {
    let mut raw = vec![0u8; 2 * 2 * 4];
    let mut fb = FrameBuffer::from_scanout(2, 2, &mut raw).unwrap();
    fb.height = 3;
    clear(&mut fb, (1, 2, 3));
    assert!(fb.as_bytes_mut().chunks(4).all(|p| p == [3, 2, 1, 0xFF]));
}

#[test]
fn scanout_pixels_have_their_own_bytes() {
    let mut raw = vec![0u8; 3 * 4 * 2];
    let fb = FrameBuffer::from_scanout(3, 2, &mut raw).unwrap();
    let mut offsets = Vec::new();
    for y in 0..2 {
        for x in 0..3 {
            let off = fb.byte_offset(x, y).unwrap();
            assert!(off + 4 <= 24);
            offsets.push(off);
        }
    }
    offsets.sort();
    for pair in offsets.windows(2) {
        assert!(pair[0] + 4 <= pair[1]);
    }
}

#[test]
fn clear_with_overlapping_pixels_keeps_the_last_write() {
    let mut raw = vec![0u8; 16];
    let mut fb = FrameBuffer::from_scanout(2, 2, &mut raw).unwrap();
    fb.bytes_per_pixel = 2;
    fb.stride = 4;
    clear(&mut fb, (3, 2, 1));
    let px = [1u8, 2, 3, 255];
    let bytes = fb.as_bytes_mut().to_vec();
    assert_eq!(&bytes[0..6], &[px[0], px[1], px[0], px[1], px[0], px[1]]);
    assert_eq!(&bytes[6..10], &px);
    assert_eq!(&bytes[10..16], &[0u8; 6]);
}

#[test]
fn offsets_grow_row_by_row_with_a_padded_stride() {
    let mut raw = vec![0u8; 64];
    let mut fb = FrameBuffer::from_scanout(2, 2, &mut raw).unwrap();
    fb.stride = 20;
    fb.bytes_per_pixel = 6;
    fb.width = 3;
    let mut last: Option<usize> = None;
    for y in 0..2 {
        for x in 0..3 {
            let off = fb.byte_offset(x, y).unwrap();
            if let Some(prev) = last {
                assert!(prev + 6 <= off);
            }
            last = Some(off);
        }
    }
}
