use pdf_android::bitmap::{argb_to_rgba, bitmap_from_argb, Bitmap};
use pdf_android::pixels::compose_library;

#[test]
fn argb_pixels_become_rgba_bytes() {
    let px = [0x80112233u32 as i32, 0x00FF0000, -1];
    assert_eq!(
        argb_to_rgba(&px),
        vec![0x11, 0x22, 0x33, 0x80, 0xFF, 0, 0, 0, 0xFF, 0xFF, 0xFF, 0xFF]
    );
}

#[test]
fn bitmap_from_argb_keeps_size() {
    let b = bitmap_from_argb(2, 1, &[0x01020304, 0x05060708]);
    assert_eq!((b.width, b.height), (2, 1));
    assert_eq!(b.data, vec![2, 3, 4, 1, 6, 7, 8, 5]);
}

#[test]
fn library_layers_background_band_header_toast() {
    // 2×3 window, RGBA.
    let mut buf = vec![0u8; 2 * 3 * 4];
    let band = Bitmap { width: 2, height: 4, data: (0..8u8).flat_map(|p| [p, p, p, 255]).collect() };
    let header = Bitmap { width: 2, height: 1, data: vec![9, 9, 9, 255, 0, 0, 0, 0] };
    let toast = Bitmap { width: 1, height: 1, data: vec![200, 200, 200, 255] };
    // Band origin 0, scroll 3, content at y = 1: the band is placed at
    // y = 1 − (3 − 0) = −2, so its rows 2 and 3 land on y = 0 and y = 1.
    compose_library(
        &mut buf,
        2,
        3,
        2,
        4,
        [50, 50, 50, 255],
        Some(&header),
        Some((&band, 0)),
        3,
        1,
        Some((&toast, 1, 2)),
    );
    let px = |x: usize, y: usize| buf[(y * 2 + x) * 4];
    assert_eq!(px(0, 0), 9); // header, opaque pixel
    assert_eq!(px(1, 0), 5); // header transparent: band row 2 shows through
    assert_eq!(px(0, 1), 6); // band row 3
    assert_eq!(px(1, 1), 7);
    assert_eq!(px(0, 2), 50); // below the band: background
    assert_eq!(px(1, 2), 200); // toast
}
