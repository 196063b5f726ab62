use pdf_android::raster::{bresenham, disc_len, disc_r, ink_disc, stamp, stroke_segment};

#[test]
fn bresenham_shallow_line() {
    assert_eq!(bresenham(0, 0, 3, 1), vec![(0, 0), (1, 0), (2, 1), (3, 1)]);
}

#[test]
fn bresenham_reverse_and_steep() {
    assert_eq!(bresenham(2, 3, 0, 0), vec![(2, 3), (1, 2), (1, 1), (0, 0)]);
    assert_eq!(bresenham(0, 0, 0, -3), vec![(0, 0), (0, -1), (0, -2), (0, -3)]);
    assert_eq!(bresenham(5, 5, 5, 5), vec![(5, 5)]);
}

#[test]
fn bresenham_diagonal_length() {
    let pts = bresenham(-2, -2, 2, 2);
    assert_eq!(pts.len(), 5);
    assert_eq!(pts[0], (-2, -2));
    assert_eq!(pts[4], (2, 2));
}

#[test]
fn bresenham_extreme_ends_do_not_overflow() {
    let pts = bresenham(i32::MAX, 0, i32::MAX - 2, 1);
    assert_eq!(pts.first(), Some(&(i32::MAX, 0)));
    assert_eq!(pts.last(), Some(&(i32::MAX - 2, 1)));
}

#[test]
fn small_radius_is_one_pixel() {
    let mut out = [(9, 9); 4];
    assert_eq!(ink_disc(1, &mut out), 1);
    assert_eq!(out[0], (0, 0));
    assert_eq!(out[1], (9, 9));
    assert_eq!(ink_disc(-3, &mut out), 1);
}

#[test]
fn disc_of_radius_two() {
    let mut out = [(0, 0); 16];
    let n = ink_disc(2, &mut out);
    assert_eq!(n, 13);
    assert_eq!(
        &out[..n],
        &[
            (0, -2),
            (-1, -1),
            (0, -1),
            (1, -1),
            (-2, 0),
            (-1, 0),
            (0, 0),
            (1, 0),
            (2, 0),
            (-1, 1),
            (0, 1),
            (1, 1),
            (0, 2)
        ]
    );
    assert_eq!(disc_r(&out[..n]), 2);
}

#[test]
fn disc_radius_of_tiny_and_empty_brushes() {
    assert_eq!(disc_r(&[(0, 0)]), 0);
    assert_eq!(disc_r(&[]), 0);
}

#[test]
fn disc_of_radius_seven_fits_the_stack_buffer() {
    let mut out = [(0, 0); 160];
    let n = ink_disc(7, &mut out);
    assert_eq!(n, 149);
    assert!(out[..n].iter().all(|&(x, y)| x * x + y * y <= 49));
}

#[test]
fn stamp_opaque_rgba_writes_rgb_only() {
    let mut buf = vec![7u8; 3 * 3 * 4];
    stamp(&mut buf, 3, 3, 3, 4, 1, 1, &[(0, 0)], [10, 20, 30, 255]);
    let p = (1 * 3 + 1) * 4;
    assert_eq!(&buf[p..p + 4], &[10, 20, 30, 7]);
    assert_eq!(buf.iter().filter(|&&b| b != 7).count(), 3);
}

#[test]
fn stamp_blends_translucent_ink() {
    let mut buf = vec![0u8; 4];
    stamp(&mut buf, 1, 1, 1, 4, 0, 0, &[(0, 0)], [255, 100, 0, 51]);
    // (c·a + d·(255 − a)) / 255 with d = 0
    assert_eq!(buf, vec![51, 20, 0, 0]);
    let mut clear = vec![9u8; 4];
    stamp(&mut clear, 1, 1, 1, 4, 0, 0, &[(0, 0)], [255, 255, 255, 0]);
    assert_eq!(clear, vec![9, 9, 9, 9]);
}

#[test]
fn stamp_rgb565_and_clipping() {
    let mut buf = vec![0u8; 2 * 2 * 2];
    stamp(&mut buf, 2, 2, 2, 2, 0, 0, &[(0, 0), (-1, 0), (5, 5)], [255, 255, 255, 255]);
    assert_eq!(buf, vec![0xff, 0xff, 0, 0, 0, 0, 0, 0]);
}

#[test]
fn stamp_three_byte_pixels_take_color_bytes() {
    let mut buf = vec![0u8; 6];
    stamp(&mut buf, 2, 1, 2, 3, 1, 0, &[(0, 0)], [1, 2, 3, 4]);
    assert_eq!(buf, vec![0, 0, 0, 1, 2, 3]);
}

#[test]
fn stroke_paints_every_line_pixel() {
    let mut buf = vec![0u8; 4 * 2 * 4];
    stroke_segment(&mut buf, 4, 2, 4, 4, 0, 0, 3, 1, &[(0, 0)], [200, 100, 50, 255]);
    for (x, y) in [(0usize, 0usize), (1, 0), (2, 1), (3, 1)] {
        let p = (y * 4 + x) * 4;
        assert_eq!(&buf[p..p + 3], &[200, 100, 50]);
    }
    let p = (1 * 4 + 0) * 4;
    assert_eq!(&buf[p..p + 3], &[0, 0, 0]);
}

#[test]
fn disc_len_counts_the_brush() {
    assert_eq!(disc_len(-5), 1);
    assert_eq!(disc_len(1), 1);
    assert_eq!(disc_len(2), 13);
    assert_eq!(disc_len(3), 29);
    assert_eq!(disc_len(7), 149);
}
