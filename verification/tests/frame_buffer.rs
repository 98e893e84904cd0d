use st7789v_driver::frame::{FrameBuffer, PixelData};
use st7789v_driver::region::Region;

#[test]
fn new_keeps_buffer_and_size() {
    let mut bytes = [1u8, 2, 3, 4];
    let fb = FrameBuffer::new(&mut bytes, 2, 1);
    assert_eq!(fb.get_buffer(), &[1u8, 2, 3, 4]);
    assert_eq!(fb.width(), 2);
    assert_eq!(fb.height(), 1);
}

#[test]
fn clear_fills_every_pixel_high_byte_first() {
    let mut bytes = [0u8; 6];
    let mut fb = FrameBuffer::new(&mut bytes, 3, 1);
    fb.clear(0xF81F);
    assert_eq!(fb.get_buffer(), &[0xF8, 0x1F, 0xF8, 0x1F, 0xF8, 0x1F]);
}

#[test]
fn clear_leaves_odd_last_byte() {
    let mut bytes = [7u8; 5];
    let mut fb = FrameBuffer::new(&mut bytes, 2, 1);
    fb.clear(0x1234);
    assert_eq!(fb.get_buffer(), &[0x12, 0x34, 0x12, 0x34, 7]);
}

#[test]
fn copy_region_moves_rectangle_rows() {
    // 3 x 2 frame; source has pixel values 1..6
    let src: Vec<u8> = (1u8..=12).collect();
    let mut bytes = [0u8; 12];
    let mut fb = FrameBuffer::new(&mut bytes, 3, 2);
    // copy the 2x2 block at (1,0) to (0,0)
    fb.copy_region(&src, 1, 0, 2, 2, 0, 0);
    assert_eq!(fb.get_buffer(), &[3, 4, 5, 6, 0, 0, 9, 10, 11, 12, 0, 0]);
}

#[test]
fn copy_region_zero_height_changes_nothing() {
    let src = [9u8; 8];
    let mut bytes = [1u8; 8];
    let mut fb = FrameBuffer::new(&mut bytes, 2, 2);
    fb.copy_region(&src, 0, 0, 2, 0, 0, 0);
    assert_eq!(fb.get_buffer(), &[1u8; 8]);
}

#[test]
fn copy_regions_restores_present_regions_only() {
    let src = [5u8; 8];
    let mut bytes = [0u8; 8];
    let mut fb = FrameBuffer::new(&mut bytes, 2, 2);
    let regions = [
        None,
        Some(Region { x: 1, y: 1, width: 1, height: 1 }),
        None,
    ];
    fb.copy_regions(&src, &regions);
    assert_eq!(fb.get_buffer(), &[0, 0, 0, 0, 0, 0, 5, 5]);
}

#[test]
fn draw_iter_writes_in_frame_pixels_and_skips_others() {
    let mut bytes = [0u8; 8];
    let mut fb = FrameBuffer::new(&mut bytes, 2, 2);
    let pixels = [
        PixelData { x: 1, y: 0, color: 0xABCD },
        PixelData { x: -1, y: 0, color: 0xFFFF },
        PixelData { x: 0, y: 2, color: 0xFFFF },
        PixelData { x: 0, y: 1, color: 0x0102 },
    ];
    assert_eq!(fb.draw_iter(&pixels), Ok(()));
    assert_eq!(fb.get_buffer(), &[0, 0, 0xAB, 0xCD, 0x01, 0x02, 0, 0]);
}

#[test]
fn draw_pixel_reads_back() {
    let mut bytes = [0u8; 8];
    let mut fb = FrameBuffer::new(&mut bytes, 2, 2);
    fb.draw_pixel(PixelData { x: 1, y: 1, color: 0x07E0 });
    let b = fb.get_buffer();
    assert_eq!(u16::from_be_bytes([b[6], b[7]]), 0x07E0);
    assert_eq!(&b[..6], &[0u8; 6]);
}

#[test]
fn diff_with_lists_changed_pixels_in_order() {
    let mut a_bytes = [0u8, 0, 0x12, 0x34, 0, 0, 0xFF, 0xFF];
    let mut b_bytes = [0u8; 8];
    let a = FrameBuffer::new(&mut a_bytes, 2, 2);
    let b = FrameBuffer::new(&mut b_bytes, 2, 2);
    let d = a.diff_with(&b);
    assert_eq!(
        d,
        vec![
            PixelData { x: 1, y: 0, color: 0x1234 },
            PixelData { x: 1, y: 1, color: 0xFFFF },
        ]
    );
}

#[test]
fn diff_with_itself_is_empty() {
    let mut a_bytes = [3u8, 4, 5, 6];
    let mut b_bytes = [3u8, 4, 5, 6];
    let a = FrameBuffer::new(&mut a_bytes, 2, 1);
    let b = FrameBuffer::new(&mut b_bytes, 2, 1);
    assert!(a.diff_with(&b).is_empty());
}

#[test]
fn drawing_the_diff_redraws_the_frame() {
    let mut a_bytes = [1u8, 2, 3, 4, 5, 6, 7, 8, 9, 10, 11, 12];
    let mut b_bytes = [1u8, 2, 0, 0, 5, 6, 0, 8, 9, 10, 0xAA, 0xBB];
    let a = FrameBuffer::new(&mut a_bytes, 3, 2);
    let diff = {
        let b = FrameBuffer::new(&mut b_bytes, 3, 2);
        a.diff_with(&b)
    };
    let mut b = FrameBuffer::new(&mut b_bytes, 3, 2);
    b.draw_iter(&diff).unwrap();
    assert_eq!(b.get_buffer(), a.get_buffer());
}

#[test]
fn diff_with_zero_width_and_no_changes() {
    let mut a_bytes = [1u8, 2];
    let mut b_bytes = [1u8, 2];
    let a = FrameBuffer::new(&mut a_bytes, 0, 0);
    let b = FrameBuffer::new(&mut b_bytes, 0, 0);
    assert!(a.diff_with(&b).is_empty());
}

#[test]
fn copy_regions_with_overlap_takes_source_bytes() {
    let src: Vec<u8> = (10u8..26).collect();
    let mut bytes = [0u8; 16];
    let mut fb = FrameBuffer::new(&mut bytes, 4, 2);
    let regions = [
        Some(Region { x: 0, y: 0, width: 2, height: 1 }),
        Some(Region { x: 1, y: 0, width: 2, height: 2 }),
    ];
    fb.copy_regions(&src, &regions);
    assert_eq!(
        fb.get_buffer(),
        &[10, 11, 12, 13, 14, 15, 0, 0, 0, 0, 20, 21, 22, 23, 0, 0]
    );
}

#[test]
fn cleared_pixels_read_back_as_the_colour() {
    let mut bytes = [0u8; 8];
    let mut fb = FrameBuffer::new(&mut bytes, 2, 2);
    fb.clear(0x07E0);
    let b = fb.get_buffer();
    for i in 0..4 {
        assert_eq!(u16::from_be_bytes([b[2 * i], b[2 * i + 1]]), 0x07E0);
    }
}

#[test]
fn pixel_writable_matches_buffer_size() {
    let mut bytes = [0u8; 7];
    let fb = FrameBuffer::new(&mut bytes, 2, 2);
    assert!(fb.pixel_writable(PixelData { x: 1, y: 1, color: 0 }) == false);
    assert!(fb.pixel_writable(PixelData { x: 0, y: 1, color: 0 }));
    assert!(fb.pixel_writable(PixelData { x: 9, y: 9, color: 0 }));
}

#[test]
fn copy_checks_match_buffer_sizes() {
    let mut bytes = [0u8; 12];
    let fb = FrameBuffer::new(&mut bytes, 3, 2);
    assert!(fb.can_copy_region(12, 1, 0, 2, 2, 0, 0));
    assert!(!fb.can_copy_region(11, 1, 0, 2, 2, 0, 0));
    assert!(!fb.can_copy_region(12, 0, 0, 2, 2, 1, 1));
    assert!(fb.can_copy_region(0, 9, 9, 9, 0, 9, 9));
    let ok = [None, Some(Region { x: 0, y: 1, width: 3, height: 1 })];
    let bad = [Some(Region { x: 2, y: 1, width: 2, height: 1 }), None];
    assert!(fb.can_copy_regions(12, &ok));
    assert!(!fb.can_copy_regions(12, &bad));
    assert!(!fb.can_copy_regions(6, &ok));
}
