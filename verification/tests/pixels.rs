use pdf_android::bitmap::Bitmap;
use pdf_android::pixels::{
    copy_region, copy_region_blend, copy_region_rect, copy_row_rgba_to, fill_buffer, rgb565,
    splice_row, fits_buffer,
};

fn bmp(width: u32, height: u32, data: Vec<u8>) -> Bitmap {
    Bitmap { width, height, data }
}

#[test]
fn rgb565_packs_high_bits() {
    assert_eq!(rgb565(255, 255, 255), 0xFFFF);
    assert_eq!(rgb565(0, 0, 0), 0);
    assert_eq!(rgb565(0xF8, 0, 0), 0xF800);
    assert_eq!(rgb565(0, 0xFC, 0), 0x07E0);
    assert_eq!(rgb565(0, 0, 0xF8), 0x001F);
    assert_eq!(rgb565(0x12, 0x34, 0x56), (0x12 >> 3) << 11 | (0x34 >> 2) << 5 | (0x56 >> 3));
}

#[test]
fn fill_buffer_respects_stride() {
    let mut buf = vec![0u8; 3 * 2 * 4];
    fill_buffer(&mut buf, 2, 2, 3, 4, [1, 2, 3, 4]);
    assert_eq!(&buf[0..8], &[1, 2, 3, 4, 1, 2, 3, 4]);
    assert_eq!(&buf[8..12], &[0, 0, 0, 0]); // padding pixel of row 0
    assert_eq!(&buf[12..20], &[1, 2, 3, 4, 1, 2, 3, 4]);
}

#[test]
fn fill_buffer_rgb565() {
    let mut buf = vec![0u8; 4];
    fill_buffer(&mut buf, 2, 1, 2, 2, [0xF8, 0, 0, 255]);
    assert_eq!(buf, vec![0x00, 0xF8, 0x00, 0xF8]);
}

#[test]
fn copy_region_clips_to_buffer() {
    let src = bmp(2, 2, vec![1, 1, 1, 1, 2, 2, 2, 2, 3, 3, 3, 3, 4, 4, 4, 4]);
    let mut buf = vec![0u8; 2 * 2 * 4];
    copy_region(&mut buf, 2, 2, 2, 4, &src, 1, -1);
    // Only source pixel (0, 1) lands, at buffer pixel (1, 0).
    assert_eq!(buf, vec![0, 0, 0, 0, 3, 3, 3, 3, 0, 0, 0, 0, 0, 0, 0, 0]);
}

#[test]
fn copy_region_blend_skips_transparent_and_blends() {
    let src = bmp(2, 1, vec![200, 0, 0, 0, 255, 0, 0, 51]);
    let mut buf = vec![10u8; 8];
    copy_region_blend(&mut buf, 2, 1, 2, 4, &src, 0, 0);
    assert_eq!(&buf[0..4], &[10, 10, 10, 10]);
    // (255·51 + 10·204) / 255 = 59, (0·51 + 10·204) / 255 = 8
    assert_eq!(&buf[4..8], &[59, 8, 8, 10]);
}

#[test]
fn copy_region_rect_copies_only_the_rect() {
    let src = bmp(2, 2, vec![5; 16]);
    let mut buf = vec![0u8; 16];
    copy_region_rect(&mut buf, 2, 2, 2, 4, &src, 1, 0, 2, 1);
    assert_eq!(buf, vec![0, 0, 0, 0, 5, 5, 5, 5, 0, 0, 0, 0, 0, 0, 0, 0]);
}

#[test]
fn splice_row_places_row_at_offset() {
    let mut dst = bmp(3, 1, vec![0; 12]);
    let row = bmp(2, 1, vec![1, 2, 3, 4, 5, 6, 7, 8]);
    splice_row(&mut dst, &row, -1, 0);
    assert_eq!(dst.data, vec![5, 6, 7, 8, 0, 0, 0, 0, 0, 0, 0, 0]);
}

#[test]
fn copy_row_converts_formats() {
    let src = [1u8, 2, 3, 4, 5, 6, 7, 8];
    let mut four = [0u8; 8];
    copy_row_rgba_to(&mut four, &src, 4);
    assert_eq!(four, src);
    let mut three = [0u8; 6];
    copy_row_rgba_to(&mut three, &src, 3);
    assert_eq!(three, [1, 2, 3, 5, 6, 7]);
    let mut two = [0u8; 2];
    copy_row_rgba_to(&mut two, &[0xF8, 0, 0, 255], 2);
    assert_eq!(two, [0x00, 0xF8]);
}

#[test]
fn fits_buffer_checks_last_row() {
    assert!(fits_buffer(20, 2, 2, 3, 4)); // (1·3 + 2)·4 = 20
    assert!(!fits_buffer(19, 2, 2, 3, 4));
    assert!(fits_buffer(0, 0, 5, 5, 4));
    assert!(!fits_buffer(100, 1, usize::MAX, usize::MAX, 4));
}
