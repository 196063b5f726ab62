//! Low-level blits on window buffers: fill, row copies with format
//! conversion (RGBA8 → the buffer's `bpp` bytes per pixel, RGB565 for
//! two-byte buffers), rectangle copies clipped to the buffer, and alpha
//! blending of overlays.
//!
//! A buffer is a byte slice holding rows of `stride` pixels of `bpp` bytes;
//! the visible part of each row is its first `w` pixels. Byte `i` of the
//! buffer is channel `i % bpp` of pixel `i / bpp`, which sits at column
//! `(i / bpp) % stride` of row `(i / bpp) / stride`.

use vstd::prelude::*;

use crate::bitmap::Bitmap;

verus! {

/// Column of the pixel that byte `i` belongs to.
pub open spec fn px_of(i: int, stride: int, bpp: int) -> int {
    (i / bpp) % stride
}

/// Row of the pixel that byte `i` belongs to.
pub open spec fn py_of(i: int, stride: int, bpp: int) -> int {
    (i / bpp) / stride
}

/// Channel of byte `i` inside its pixel.
pub open spec fn ch_of(i: int, bpp: int) -> int {
    i % bpp
}

/// First byte of pixel (`x`, `y`).
pub open spec fn pixel_base(x: int, y: int, stride: int, bpp: int) -> int {
    (y * stride + x) * bpp
}

/// Byte `i` is one of the first `n` channels of a pixel of the rectangle
/// `[x0, x1) × [y0, y1)`.
pub open spec fn in_region(
    i: int,
    stride: int,
    bpp: int,
    n: int,
    x0: int,
    x1: int,
    y0: int,
    y1: int,
) -> bool {
    &&& 0 <= i
    &&& stride > 0
    &&& bpp > 0
    &&& ch_of(i, bpp) < n
    &&& y0 <= py_of(i, stride, bpp) < y1
    &&& x0 <= px_of(i, stride, bpp) < x1
}

/// A buffer of `len` bytes holds `h` rows of `stride` pixels of `bpp`
/// bytes, the last row at least `w` pixels long.
pub open spec fn buffer_fits(len: int, w: int, h: int, stride: int, bpp: int) -> bool {
    w == 0 || h == 0 || ((h - 1) * stride + w) * bpp <= len
}

/// RGB565 value of an RGBA8 color: 5 bits of red, 6 of green, 5 of blue.
pub open spec fn rgb565_spec(r: u8, g: u8, b: u8) -> u16 {
    ((r as int / 8) * 2048 + (g as int / 4) * 32 + b as int / 8) as u16
}

/// Byte `c` (0 = low) of the little-endian encoding of `v`.
pub open spec fn le_byte(v: u16, c: int) -> u8 {
    if c == 0 {
        (v as int % 256) as u8
    } else {
        (v as int / 256) as u8
    }
}

/// Pixel byte `i` decomposes into its row, column and channel.
pub proof fn lemma_pixel_iff(i: int, x: int, y: int, stride: int, bpp: int, n: int)
    requires
        stride > 0,
        bpp > 0,
        0 <= n <= bpp,
        0 <= x < stride,
        0 <= y,
        0 <= i,
    ensures
        (px_of(i, stride, bpp) == x && py_of(i, stride, bpp) == y && ch_of(i, bpp) < n) <==> (
        pixel_base(x, y, stride, bpp) <= i < pixel_base(x, y, stride, bpp) + n),
        pixel_base(x, y, stride, bpp) <= i < pixel_base(x, y, stride, bpp) + n ==> ch_of(i, bpp)
            == i - pixel_base(x, y, stride, bpp),
{
    let q = i / bpp;
    let c = i % bpp;
    vstd::arithmetic::div_mod::lemma_fundamental_div_mod(i, bpp);
    vstd::arithmetic::div_mod::lemma_fundamental_div_mod(q, stride);
    let base = pixel_base(x, y, stride, bpp);
    assert(i == q * bpp + c);
    assert(0 <= c < bpp);
    assert(q == (q / stride) * stride + q % stride) by (nonlinear_arith)
        requires
            q == stride * (q / stride) + q % stride,
    ;
    if base <= i < base + n {
        let k = y * stride + x;
        assert(base == k * bpp);
        assert(i == k * bpp + (i - base));
        vstd::arithmetic::div_mod::lemma_fundamental_div_mod_converse(i, bpp, k, i - base);
        assert(q == k);
        assert(c == i - base);
        assert(k == y * stride + x);
        vstd::arithmetic::div_mod::lemma_fundamental_div_mod_converse(k, stride, y, x);
    }
    if q % stride == x && q / stride == y && c < n {
        assert(q == y * stride + x);
        assert(i == (y * stride + x) * bpp + c);
    }
}

/// The first byte of a pixel of the rectangle `[0, w) × [0, h)` plus one
/// pixel stays within a buffer that fits.
pub proof fn lemma_pixel_in_buffer(x: int, y: int, w: int, h: int, stride: int, bpp: int, len: int)
    requires
        0 <= x,
        x < w,
        w <= stride,
        0 <= y,
        y < h,
        bpp >= 1,
        buffer_fits(len, w, h, stride, bpp),
    ensures
        pixel_base(x, y, stride, bpp) + bpp <= len,
        0 <= y * stride <= y * stride + x <= pixel_base(x, y, stride, bpp),
{
    assert(y * stride + x + 1 <= (h - 1) * stride + w) by (nonlinear_arith)
        requires
            0 <= x < w,
            0 <= y <= h - 1,
            stride >= 0,
    ;
    assert((y * stride + x) * bpp + bpp <= ((h - 1) * stride + w) * bpp) by (nonlinear_arith)
        requires
            y * stride + x + 1 <= (h - 1) * stride + w,
            bpp >= 0,
    ;
    assert(0 <= y * stride <= y * stride + x <= (y * stride + x) * bpp) by (nonlinear_arith)
        requires
            0 <= x,
            0 <= y,
            stride >= 0,
            bpp >= 1,
    ;
}

/// RGBA8 → RGB565 (the `R5G6B5_UNORM` window format).
pub fn rgb565(r: u8, g: u8, b: u8) -> (v: u16)
    ensures
        v == rgb565_spec(r, g, b),
{
    let v = ((r as u16 >> 3) << 11) | ((g as u16 >> 2) << 5) | (b as u16 >> 3);
    assert(((r as u16 >> 3) << 11) | ((g as u16 >> 2) << 5) | (b as u16 >> 3) == ((r / 8) * 2048 + (
    g / 4) * 32 + b / 8) as u16) by (bit_vector);
    v
}

/// Little-endian bytes of an RGB565 value.
pub(crate) fn rgb565_bytes(r: u8, g: u8, b: u8) -> (out: [u8; 4])
    ensures
        out@[0] == le_byte(rgb565_spec(r, g, b), 0),
        out@[1] == le_byte(rgb565_spec(r, g, b), 1),
        out@[2] == 0,
        out@[3] == 0,
{
    let v = rgb565(r, g, b);
    let lo = (v & 0xff) as u8;
    let hi = (v >> 8) as u8;
    assert(v & 0xff == v % 256) by (bit_vector);
    assert(v >> 8 == v / 256) by (bit_vector);
    [lo, hi, 0, 0]
}

/// Writes the first `n` bytes of `vals` at `base`.
pub(crate) fn write_px(dst: &mut [u8], base: usize, vals: [u8; 4], n: usize)
    requires
        n <= 4,
        base + n <= old(dst)@.len(),
    ensures
        final(dst)@.len() == old(dst)@.len(),
        forall|i: int|
            0 <= i < old(dst)@.len() ==> #[trigger] final(dst)@[i] == if base <= i < base + n {
                vals@[i - base]
            } else {
                old(dst)@[i]
            },
{
    let len = dst.len();
    let mut c: usize = 0;
    while c < n
        invariant
            len == dst@.len(),
            c <= n <= 4,
            base + n <= dst@.len(),
            dst@.len() == old(dst)@.len(),
            forall|i: int|
                0 <= i < old(dst)@.len() ==> #[trigger] dst@[i] == if base <= i < base + c {
                    vals@[i - base]
                } else {
                    old(dst)@[i]
                },
        decreases n - c,
    {
        dst[base + c] = vals[c];
        c += 1;
    }
}

/// Bytes written per pixel by `fill_buffer` for a `bpp` format.
pub open spec fn fill_channels(bpp: int) -> int {
    if bpp == 4 {
        4
    } else if bpp == 2 {
        2
    } else if bpp < 4 {
        bpp
    } else {
        4
    }
}

/// Byte `c` of a pixel filled with `color` in a `bpp` format: RGB565
/// little-endian for two-byte pixels, the RGBA8 bytes otherwise.
pub open spec fn fill_byte(color: [u8; 4], bpp: int, c: int) -> u8 {
    if bpp == 2 {
        le_byte(rgb565_spec(color@[0], color@[1], color@[2]), c)
    } else {
        color@[c]
    }
}

/// Fills the visible part of the buffer (`w` pixels of each of `h` rows of
/// `stride` pixels) with `color`: four-byte pixels get the RGBA8 bytes,
/// two-byte pixels the RGB565 value, other formats the first
/// `min(bpp, 4)` bytes of the color.
pub fn fill_buffer(dst: &mut [u8], w: usize, h: usize, stride: usize, bpp: usize, color: [u8; 4])
    requires
        w <= stride,
        bpp > 0 || h == 0,
        buffer_fits(old(dst)@.len() as int, w as int, h as int, stride as int, bpp as int),
    ensures
        final(dst)@.len() == old(dst)@.len(),
        forall|i: int|
            0 <= i < old(dst)@.len() ==> #[trigger] final(dst)@[i] == if in_region(
                i,
                stride as int,
                bpp as int,
                fill_channels(bpp as int),
                0,
                w as int,
                0,
                h as int,
            ) {
                fill_byte(color, bpp as int, ch_of(i, bpp as int))
            } else {
                old(dst)@[i]
            },
{
    let n: usize = if bpp == 4 {
        4
    } else if bpp == 2 {
        2
    } else if bpp < 4 {
        bpp
    } else {
        4
    };
    let vals: [u8; 4] = if bpp == 2 {
        rgb565_bytes(color[0], color[1], color[2])
    } else {
        color
    };
    let len = dst.len();
    let ghost nn = n as int;
    let ghost s = stride as int;
    let ghost b = bpp as int;
    let mut y: usize = 0;
    while y < h
        invariant
            n as int == fill_channels(bpp as int),
            nn == n as int,
            len == dst@.len(),
            s == stride as int,
            b == bpp as int,
            n <= 4,
            n <= bpp || h == 0,
            w <= stride,
            bpp > 0 || h == 0,
            y <= h,
            forall|c: int| 0 <= c < n ==> vals@[c] == fill_byte(color, bpp as int, c),
            buffer_fits(old(dst)@.len() as int, w as int, h as int, stride as int, bpp as int),
            dst@.len() == old(dst)@.len(),
            forall|i: int|
                0 <= i < old(dst)@.len() ==> #[trigger] dst@[i] == if in_region(
                    i,
                    s,
                    b,
                    nn,
                    0,
                    w as int,
                    0,
                    y as int,
                ) {
                    fill_byte(color, b, ch_of(i, b))
                } else {
                    old(dst)@[i]
                },
        decreases h - y,
    {
        let mut x: usize = 0;
        while x < w
            invariant
                n as int == fill_channels(bpp as int),
                nn == n as int,
                len == dst@.len(),
                s == stride as int,
                b == bpp as int,
                n <= 4,
                n <= bpp,
                bpp > 0,
                w <= stride,
                y < h,
                x <= w,
                forall|c: int| 0 <= c < n ==> vals@[c] == fill_byte(color, bpp as int, c),
                buffer_fits(old(dst)@.len() as int, w as int, h as int, stride as int, bpp as int),
                dst@.len() == old(dst)@.len(),
                forall|i: int|
                    0 <= i < old(dst)@.len() ==> #[trigger] dst@[i] == if in_region(
                        i,
                        s,
                        b,
                        nn,
                        0,
                        w as int,
                        0,
                        y as int,
                    ) || in_region(i, s, b, nn, 0, x as int, y as int, y + 1) {
                        fill_byte(color, b, ch_of(i, b))
                    } else {
                        old(dst)@[i]
                    },
            decreases w - x,
        {
            proof {
                lemma_pixel_in_buffer(x as int, y as int, w as int, h as int, s, b, dst@.len() as int);
            }
            let base = (y * stride + x) * bpp;
            let ghost before = dst@;
            write_px(dst, base, vals, n);
            proof {
                assert forall|i: int| 0 <= i < old(dst)@.len() implies #[trigger] dst@[i] == if in_region(
                    i,
                    s,
                    b,
                    nn,
                    0,
                    w as int,
                    0,
                    y as int,
                ) || in_region(i, s, b, nn, 0, x + 1, y as int, y + 1) {
                    fill_byte(color, b, ch_of(i, b))
                } else {
                    old(dst)@[i]
                } by {
                    lemma_pixel_iff(i, x as int, y as int, s, b, nn);
                }
            }
            x += 1;
        }
        y += 1;
    }
}

/// How a source RGBA8 pixel lands on a buffer pixel.
#[derive(Clone, Copy, PartialEq, Eq, Structural)]
pub enum PixelMode {
    /// Copy: four-byte pixels take all four bytes, other formats the first
    /// `min(bpp, 3)` bytes.
    Raw,
    /// Like `Raw`, but two-byte pixels take the RGB565 value.
    Convert,
    /// Source-over alpha blending on four-byte pixels (alpha 0 skipped,
    /// alpha 255 copied, the color channels blended otherwise); other
    /// formats as `Raw`.
    Blend,
}

/// Bytes of a buffer pixel written for one source pixel.
pub open spec fn put_channels(mode: PixelMode, bpp: int) -> int {
    if bpp == 4 {
        4
    } else if mode == PixelMode::Convert && bpp == 2 {
        2
    } else if bpp < 3 {
        bpp
    } else {
        3
    }
}

/// Alpha blend of one color channel: `(s·a + d·(255 − a)) / 255`.
pub open spec fn blend_channel(s: u8, d: u8, a: u8) -> u8 {
    ((s as int * a as int + d as int * (255 - a as int)) / 255) as u8
}

/// New value of channel `c` of a buffer pixel whose old value is `old`,
/// for the source pixel starting at byte `p` of `src`.
pub open spec fn put_byte(mode: PixelMode, src: Seq<u8>, p: int, bpp: int, c: int, old: u8) -> u8 {
    if mode == PixelMode::Blend && bpp == 4 {
        let a = src[p + 3];
        if a == 0 {
            old
        } else if a == 255 {
            src[p + c]
        } else if c < 3 {
            blend_channel(src[p + c], old, a)
        } else {
            old
        }
    } else if mode == PixelMode::Convert && bpp == 2 {
        le_byte(rgb565_spec(src[p], src[p + 1], src[p + 2]), c)
    } else {
        src[p + c]
    }
}

/// Blend of one channel, in machine integers.
pub(crate) fn blend_u8(s: u8, d: u8, a: u8) -> (r: u8)
    ensures
        r == blend_channel(s, d, a),
{
    proof {
        assert(s as int * a as int <= 255 * 255) by (nonlinear_arith)
            requires
                s <= 255,
                a <= 255,
        ;
        assert(d as int * (255 - a as int) <= 255 * 255) by (nonlinear_arith)
            requires
                d <= 255,
                a <= 255,
        ;
        assert(s as int * a as int + d as int * (255 - a as int) <= 255 * 255) by (nonlinear_arith)
            requires
                s <= 255,
                d <= 255,
                a <= 255,
        ;
    }
    let sa = s as u32 * a as u32;
    let da = d as u32 * (255 - a as u32);
    ((sa + da) / 255) as u8
}

/// Writes `count` consecutive buffer pixels from `count` consecutive
/// RGBA8 source pixels, according to `mode`.
fn put_pixels(
    dst: &mut [u8],
    dst_off: usize,
    src: &[u8],
    src_off: usize,
    count: usize,
    bpp: usize,
    mode: PixelMode,
)
    requires
        bpp > 0,
        dst_off + count * bpp <= old(dst)@.len(),
        src_off + count * 4 <= src@.len(),
    ensures
        final(dst)@.len() == old(dst)@.len(),
        forall|i: int|
            0 <= i < old(dst)@.len() ==> #[trigger] final(dst)@[i] == if dst_off <= i < dst_off
                + count * bpp && (i - dst_off) % (bpp as int) < put_channels(mode, bpp as int) {
                put_byte(
                    mode,
                    src@,
                    src_off + ((i - dst_off) / (bpp as int)) * 4,
                    bpp as int,
                    (i - dst_off) % (bpp as int),
                    old(dst)@[i],
                )
            } else {
                old(dst)@[i]
            },
{
    let len = dst.len();
    let slen = src.len();
    let ghost b = bpp as int;
    let n: usize = if bpp == 4 {
        4
    } else if mode == PixelMode::Convert && bpp == 2 {
        2
    } else if bpp < 3 {
        bpp
    } else {
        3
    };
    let mut k: usize = 0;
    while k < count
        invariant
            len == dst@.len(),
            slen == src@.len(),
            dst@.len() == old(dst)@.len(),
            bpp > 0,
            b == bpp as int,
            n as int == put_channels(mode, b),
            n <= bpp,
            k <= count,
            dst_off + count * bpp <= old(dst)@.len(),
            src_off + count * 4 <= src@.len(),
            forall|i: int|
                0 <= i < old(dst)@.len() ==> #[trigger] dst@[i] == if dst_off <= i < dst_off + k * b
                    && (i - dst_off) % b < n {
                    put_byte(
                        mode,
                        src@,
                        src_off + ((i - dst_off) / b) * 4,
                        b,
                        (i - dst_off) % b,
                        old(dst)@[i],
                    )
                } else {
                    old(dst)@[i]
                },
        decreases count - k,
    {
        proof {
            assert(k * bpp + bpp <= count * bpp) by (nonlinear_arith)
                requires
                    k < count,
            ;
            assert(k * 4 + 4 <= count * 4) by (nonlinear_arith)
                requires
                    k < count,
            ;
        }
        let d = dst_off + k * bpp;
        let p = src_off + k * 4;
        let vals: [u8; 4] = if mode == PixelMode::Blend && bpp == 4 {
            let a = src[p + 3];
            if a == 0 {
                [dst[d], dst[d + 1], dst[d + 2], dst[d + 3]]
            } else if a == 255 {
                [src[p], src[p + 1], src[p + 2], src[p + 3]]
            } else {
                [
                    blend_u8(src[p], dst[d], a),
                    blend_u8(src[p + 1], dst[d + 1], a),
                    blend_u8(src[p + 2], dst[d + 2], a),
                    dst[d + 3],
                ]
            }
        } else if mode == PixelMode::Convert && bpp == 2 {
            rgb565_bytes(src[p], src[p + 1], src[p + 2])
        } else {
            [src[p], src[p + 1], src[p + 2], src[p + 3]]
        };
        let ghost before = dst@;
        write_px(dst, d, vals, n);
        proof {
            assert forall|i: int| 0 <= i < old(dst)@.len() implies #[trigger] dst@[i] == if dst_off
                <= i < dst_off + (k + 1) * b && (i - dst_off) % b < n {
                put_byte(
                    mode,
                    src@,
                    src_off + ((i - dst_off) / b) * 4,
                    b,
                    (i - dst_off) % b,
                    old(dst)@[i],
                )
            } else {
                old(dst)@[i]
            } by {
                let t = i - dst_off;
                assert((k + 1) * b == k * b + b) by (nonlinear_arith);
                if dst_off <= i < dst_off + (k + 1) * b {
                    vstd::arithmetic::div_mod::lemma_fundamental_div_mod(t, b);
                    if d <= i < d + b {
                        vstd::arithmetic::div_mod::lemma_fundamental_div_mod_converse(
                            t,
                            b,
                            k as int,
                            i - d,
                        );
                    } else {
                        assert(t < k * b);
                        let q = t / b;
                        let r = t % b;
                        assert(q < k) by (nonlinear_arith)
                            requires
                                t == b * q + r,
                                0 <= r,
                                t < k * b,
                                b > 0,
                        ;
                    }
                }
                if dst_off <= i < dst_off + k * b {
                    assert(k * b <= (k + 1) * b) by (nonlinear_arith)
                        requires
                            b > 0,
                    ;
                }
            }
        }
        k += 1;
    }
}

/// Bytes of row `y` between columns `x0` and `x0 + cnt` are exactly the
/// run that starts at the first byte of pixel (`x0`, `y`).
pub proof fn lemma_row_iff(i: int, x0: int, cnt: int, y: int, stride: int, bpp: int, n: int)
    requires
        stride > 0,
        bpp > 0,
        0 <= n <= bpp,
        0 <= x0,
        0 <= cnt,
        x0 + cnt <= stride,
        0 <= y,
        0 <= i,
    ensures
        ({
            let base = pixel_base(x0, y, stride, bpp);
            &&& (py_of(i, stride, bpp) == y && x0 <= px_of(i, stride, bpp) < x0 + cnt && ch_of(
                i,
                bpp,
            ) < n) <==> (base <= i < base + cnt * bpp && (i - base) % bpp < n)
            &&& (base <= i < base + cnt * bpp && (i - base) % bpp < n) ==> (px_of(i, stride, bpp)
                == x0 + (i - base) / bpp && ch_of(i, bpp) == (i - base) % bpp)
        }),
{
    let base = pixel_base(x0, y, stride, bpp);
    let t = i - base;
    if base <= i < base + cnt * bpp {
        vstd::arithmetic::div_mod::lemma_fundamental_div_mod(t, bpp);
        let k = t / bpp;
        let c = t % bpp;
        assert(0 <= k < cnt) by (nonlinear_arith)
            requires
                t == bpp * k + c,
                0 <= c < bpp,
                0 <= t < cnt * bpp,
        ;
        assert(i == pixel_base(x0 + k, y, stride, bpp) + c) by (nonlinear_arith)
            requires
                i == base + t,
                t == bpp * k + c,
                base == (y * stride + x0) * bpp,
        ;
        lemma_pixel_iff(i, x0 + k, y, stride, bpp, n);
        lemma_pixel_iff(i, x0 + k, y, stride, bpp, bpp);
    }
    if py_of(i, stride, bpp) == y && x0 <= px_of(i, stride, bpp) < x0 + cnt && ch_of(i, bpp) < n {
        let x = px_of(i, stride, bpp);
        lemma_pixel_iff(i, x, y, stride, bpp, n);
        let c = ch_of(i, bpp);
        assert(t == (x - x0) * bpp + c) by (nonlinear_arith)
            requires
                i == (y * stride + x) * bpp + c,
                base == (y * stride + x0) * bpp,
                t == i - base,
        ;
        assert(t < cnt * bpp) by (nonlinear_arith)
            requires
                t == (x - x0) * bpp + c,
                0 <= x - x0 <= cnt - 1,
                c < bpp,
                bpp > 0,
        ;
        vstd::arithmetic::div_mod::lemma_fundamental_div_mod_converse(t, bpp, x - x0, c);
    }
}

/// Source byte that feeds buffer pixel (`px`, `py`) of a rectangle whose
/// corner (`x0`, `y0`) shows source pixel (`sx0`, `sy0`) of a bitmap `sw`
/// pixels wide.
pub open spec fn src_pixel_byte(px: int, py: int, x0: int, y0: int, sx0: int, sy0: int, sw: int) -> int {
    ((py - y0 + sy0) * sw + (px - x0 + sx0)) * 4
}

/// The bitmap holds at least `width * height` RGBA8 pixels.
pub open spec fn holds_pixels(src: &Bitmap) -> bool {
    src.data@.len() >= src.width as nat * src.height as nat * 4
}

/// Writes the rectangle `[x0, x1) × [y0, y1)` of the buffer from the
/// source rectangle whose corner is pixel (`sx0`, `sy0`) of `src`.
fn put_rect(
    dst: &mut [u8],
    dst_w: usize,
    dst_h: usize,
    stride: usize,
    bpp: usize,
    src: &Bitmap,
    x0: usize,
    y0: usize,
    x1: usize,
    y1: usize,
    sx0: usize,
    sy0: usize,
    mode: PixelMode,
)
    requires
        bpp > 0,
        x0 <= x1 <= dst_w <= stride,
        y0 <= y1 <= dst_h,
        buffer_fits(old(dst)@.len() as int, dst_w as int, dst_h as int, stride as int, bpp as int),
        sx0 + (x1 - x0) <= src.width,
        sy0 + (y1 - y0) <= src.height,
        holds_pixels(src),
    ensures
        final(dst)@.len() == old(dst)@.len(),
        forall|i: int|
            0 <= i < old(dst)@.len() ==> #[trigger] final(dst)@[i] == if in_region(
                i,
                stride as int,
                bpp as int,
                put_channels(mode, bpp as int),
                x0 as int,
                x1 as int,
                y0 as int,
                y1 as int,
            ) {
                put_byte(
                    mode,
                    src.data@,
                    src_pixel_byte(
                        px_of(i, stride as int, bpp as int),
                        py_of(i, stride as int, bpp as int),
                        x0 as int,
                        y0 as int,
                        sx0 as int,
                        sy0 as int,
                        src.width as int,
                    ),
                    bpp as int,
                    ch_of(i, bpp as int),
                    old(dst)@[i],
                )
            } else {
                old(dst)@[i]
            },
{
    let ghost s = stride as int;
    let ghost b = bpp as int;
    let ghost n = put_channels(mode, bpp as int);
    let len = dst.len();
    let slen = src.data.len();
    let sw = src.width as usize;
    let copy_w = x1 - x0;
    let mut y = y0;
    while y < y1
        invariant
            len == dst@.len(),
            slen == src.data@.len(),
            sw == src.width,
            copy_w == x1 - x0,
            dst@.len() == old(dst)@.len(),
            s == stride as int,
            b == bpp as int,
            n == put_channels(mode, bpp as int),
            0 <= n <= b,
            bpp > 0,
            x0 <= x1 <= dst_w <= stride,
            y0 <= y <= y1 <= dst_h,
            buffer_fits(old(dst)@.len() as int, dst_w as int, dst_h as int, stride as int, bpp as int),
            sx0 + (x1 - x0) <= src.width,
            sy0 + (y1 - y0) <= src.height,
            holds_pixels(src),
            forall|i: int|
                0 <= i < old(dst)@.len() ==> #[trigger] dst@[i] == if in_region(
                    i,
                    s,
                    b,
                    n,
                    x0 as int,
                    x1 as int,
                    y0 as int,
                    y as int,
                ) {
                    put_byte(
                        mode,
                        src.data@,
                        src_pixel_byte(
                            px_of(i, s, b),
                            py_of(i, s, b),
                            x0 as int,
                            y0 as int,
                            sx0 as int,
                            sy0 as int,
                            sw as int,
                        ),
                        b,
                        ch_of(i, b),
                        old(dst)@[i],
                    )
                } else {
                    old(dst)@[i]
                },
        decreases y1 - y,
    {
        if copy_w > 0 {
            let ghost before = dst@;
            let ghost sy = (y - y0 + sy0) as int;
            proof {
                lemma_pixel_in_buffer(
                    (x1 - 1) as int,
                    y as int,
                    dst_w as int,
                    dst_h as int,
                    s,
                    b,
                    len as int,
                );
                lemma_pixel_in_buffer(x0 as int, y as int, dst_w as int, dst_h as int, s, b, len as int);
                assert(pixel_base(x0 as int, y as int, s, b) + copy_w * b == pixel_base(
                    (x1 - 1) as int,
                    y as int,
                    s,
                    b,
                ) + b) by (nonlinear_arith)
                    requires
                        copy_w == x1 - x0,
                        x1 >= 1,
                ;
                assert((sy * sw + sx0 + copy_w) * 4 <= sw * src.height * 4) by (nonlinear_arith)
                    requires
                        0 <= sy < src.height,
                        sx0 + copy_w <= sw,
                ;
                assert(0 <= sy * sw <= sy * sw + sx0 <= (sy * sw + sx0) * 4) by (nonlinear_arith)
                    requires
                        0 <= sy,
                        0 <= sw,
                ;
                assert((sy * sw + sx0) * 4 + copy_w * 4 == (sy * sw + sx0 + copy_w) * 4)
                    by (nonlinear_arith);
            }
            let dst_off = (y * stride + x0) * bpp;
            let src_off = ((y - y0 + sy0) * sw + sx0) * 4;
            put_pixels(dst, dst_off, &src.data, src_off, copy_w, bpp, mode);
            proof {
                assert forall|i: int| 0 <= i < old(dst)@.len() implies #[trigger] dst@[i] == if in_region(
                    i,
                    s,
                    b,
                    n,
                    x0 as int,
                    x1 as int,
                    y0 as int,
                    y + 1,
                ) {
                    put_byte(
                        mode,
                        src.data@,
                        src_pixel_byte(
                            px_of(i, s, b),
                            py_of(i, s, b),
                            x0 as int,
                            y0 as int,
                            sx0 as int,
                            sy0 as int,
                            sw as int,
                        ),
                        b,
                        ch_of(i, b),
                        old(dst)@[i],
                    )
                } else {
                    old(dst)@[i]
                } by {
                    lemma_row_iff(i, x0 as int, copy_w as int, y as int, s, b, n);
                    let t = i - dst_off;
                    if dst_off <= i < dst_off + copy_w * b && t % b < n {
                        let k = t / b;
                        assert(src_off + k * 4 == src_pixel_byte(
                            px_of(i, s, b),
                            py_of(i, s, b),
                            x0 as int,
                            y0 as int,
                            sx0 as int,
                            sy0 as int,
                            sw as int,
                        )) by (nonlinear_arith)
                            requires
                                px_of(i, s, b) == x0 + k,
                                py_of(i, s, b) == y,
                                src_off == ((y - y0 + sy0) * sw + sx0) * 4,
                        ;
                        assert(!in_region(
                            i,
                            s,
                            b,
                            n,
                            x0 as int,
                            x1 as int,
                            y0 as int,
                            y as int,
                        ));
                    }
                }
            }
        } else {
            proof {
                assert forall|i: int| 0 <= i < old(dst)@.len() implies #[trigger] in_region(
                    i,
                    s,
                    b,
                    n,
                    x0 as int,
                    x1 as int,
                    y0 as int,
                    y + 1,
                ) == in_region(i, s, b, n, x0 as int, x1 as int, y0 as int, y as int) by {}
            }
        }
        y += 1;
    }
}

/// Larger of two integers.
pub open spec fn imax(a: int, b: int) -> int {
    if a >= b {
        a
    } else {
        b
    }
}

/// Smaller of two integers.
pub open spec fn imin(a: int, b: int) -> int {
    if a <= b {
        a
    } else {
        b
    }
}

/// Effect of blitting `src` with its top-left corner at (`sx`, `sy`) onto a
/// buffer `dst_w × dst_h`: the visible part of the bitmap is written with
/// `mode`, every other byte keeps its value.
pub open spec fn blit_result(
    old: Seq<u8>,
    new: Seq<u8>,
    dst_w: int,
    dst_h: int,
    stride: int,
    bpp: int,
    src: &Bitmap,
    sx: int,
    sy: int,
    mode: PixelMode,
) -> bool {
    let x0 = imax(sx, 0);
    let y0 = imax(sy, 0);
    let x1 = imin(sx + src.width, dst_w);
    let y1 = imin(sy + src.height, dst_h);
    &&& new.len() == old.len()
    &&& forall|i: int|
        0 <= i < old.len() ==> #[trigger] new[i] == if in_region(
            i,
            stride,
            bpp,
            put_channels(mode, bpp),
            x0,
            x1,
            y0,
            y1,
        ) {
            put_byte(
                mode,
                src.data@,
                ((py_of(i, stride, bpp) - sy) * src.width + (px_of(i, stride, bpp) - sx)) * 4,
                bpp,
                ch_of(i, bpp),
                old[i],
            )
        } else {
            old[i]
        }
}

/// Machine limits of a blit: every coordinate fits in `i32`.
pub open spec fn blit_in_range(dst_w: int, dst_h: int, src: &Bitmap, sx: int, sy: int) -> bool {
    &&& dst_w <= i32::MAX
    &&& dst_h <= i32::MAX
    &&& src.width <= i32::MAX
    &&& src.height <= i32::MAX
    &&& sx + src.width <= i32::MAX
    &&& sy + src.height <= i32::MAX
}

/// Shared body of the bitmap blits: clips the bitmap to the buffer and
/// writes the visible rectangle.
fn blit(
    dst: &mut [u8],
    dst_w: usize,
    dst_h: usize,
    dst_stride: usize,
    bpp: usize,
    src: &Bitmap,
    sx: i32,
    sy: i32,
    mode: PixelMode,
)
    requires
        dst_w <= dst_stride,
        buffer_fits(old(dst)@.len() as int, dst_w as int, dst_h as int, dst_stride as int, bpp as int),
        holds_pixels(src),
        blit_in_range(dst_w as int, dst_h as int, src, sx as int, sy as int),
        bpp > 0,
    ensures
        blit_result(
            old(dst)@,
            final(dst)@,
            dst_w as int,
            dst_h as int,
            dst_stride as int,
            bpp as int,
            src,
            sx as int,
            sy as int,
            mode,
        ),
{
    let src_w = src.width as i32;
    let src_h = src.height as i32;
    let x0 = if sx > 0 { sx } else { 0 };
    let y0 = if sy > 0 { sy } else { 0 };
    let ex = sx + src_w;
    let ey = sy + src_h;
    let dw = dst_w as i32;
    let dh = dst_h as i32;
    let x1 = if ex < dw { ex } else { dw };
    let y1 = if ey < dh { ey } else { dh };
    if x1 <= x0 || y1 <= y0 {
        return;
    }
    put_rect(
        dst,
        dst_w,
        dst_h,
        dst_stride,
        bpp,
        src,
        x0 as usize,
        y0 as usize,
        x1 as usize,
        y1 as usize,
        (x0 - sx) as usize,
        (y0 - sy) as usize,
        mode,
    );
    proof {
        assert forall|i: int| 0 <= i < old(dst)@.len() implies src_pixel_byte(
            px_of(i, dst_stride as int, bpp as int),
            py_of(i, dst_stride as int, bpp as int),
            x0 as int,
            y0 as int,
            (x0 - sx) as int,
            (y0 - sy) as int,
            src.width as int,
        ) == ((py_of(i, dst_stride as int, bpp as int) - sy) * src.width + (px_of(
            i,
            dst_stride as int,
            bpp as int,
        ) - sx)) * 4 by {
            let py = py_of(i, dst_stride as int, bpp as int);
            assert(py - y0 + (y0 - sy) == py - sy);
        }
    }
}

/// Copies the intersection of `src` (RGBA8) with the buffer, the corner of
/// `src` at (`sx`, `sy`): four-byte pixels are copied, two-byte pixels get
/// RGB565, other formats the first `min(bpp, 3)` bytes. Parts of the bitmap
/// outside the buffer are clipped.
pub fn copy_region(
    dst: &mut [u8],
    dst_w: usize,
    dst_h: usize,
    dst_stride: usize,
    bpp: usize,
    src: &Bitmap,
    sx: i32,
    sy: i32,
)
    requires
        dst_w <= dst_stride,
        buffer_fits(old(dst)@.len() as int, dst_w as int, dst_h as int, dst_stride as int, bpp as int),
        holds_pixels(src),
        blit_in_range(dst_w as int, dst_h as int, src, sx as int, sy as int),
        bpp > 0,
    ensures
        blit_result(
            old(dst)@,
            final(dst)@,
            dst_w as int,
            dst_h as int,
            dst_stride as int,
            bpp as int,
            src,
            sx as int,
            sy as int,
            PixelMode::Convert,
        ),
{
    blit(dst, dst_w, dst_h, dst_stride, bpp, src, sx, sy, PixelMode::Convert);
}

/// Copies an overlay bitmap with source-over alpha: alpha 255 pixels are
/// copied, alpha 0 pixels skipped, the rest blended on the color channels
/// (four-byte buffers); other formats take the first `min(bpp, 3)` bytes.
pub fn copy_region_blend(
    dst: &mut [u8],
    dst_w: usize,
    dst_h: usize,
    dst_stride: usize,
    bpp: usize,
    src: &Bitmap,
    sx: i32,
    sy: i32,
)
    requires
        dst_w <= dst_stride,
        buffer_fits(old(dst)@.len() as int, dst_w as int, dst_h as int, dst_stride as int, bpp as int),
        holds_pixels(src),
        blit_in_range(dst_w as int, dst_h as int, src, sx as int, sy as int),
    ensures
        blit_result(
            old(dst)@,
            final(dst)@,
            dst_w as int,
            dst_h as int,
            dst_stride as int,
            bpp as int,
            src,
            sx as int,
            sy as int,
            PixelMode::Blend,
        ),
{
    if bpp == 0 {
        return;
    }
    blit(dst, dst_w, dst_h, dst_stride, bpp, src, sx, sy, PixelMode::Blend);
}

/// Copies the rectangle `[x0, x1) × [y0, y1)` of a window-sized bitmap to
/// the same place of the buffer (clipped to both): four-byte pixels are
/// copied, other formats take the first `min(bpp, 3)` bytes.
pub fn copy_region_rect(
    dst: &mut [u8],
    dst_w: usize,
    dst_h: usize,
    dst_stride: usize,
    bpp: usize,
    src: &Bitmap,
    x0: i32,
    y0: i32,
    x1: i32,
    y1: i32,
)
    requires
        src.width == dst_w,
        dst_w <= dst_stride,
        buffer_fits(old(dst)@.len() as int, dst_w as int, dst_h as int, dst_stride as int, bpp as int),
        holds_pixels(src),
        blit_in_range(dst_w as int, dst_h as int, src, 0, 0),
    ensures
        final(dst)@.len() == old(dst)@.len(),
        forall|i: int|
            0 <= i < old(dst)@.len() ==> #[trigger] final(dst)@[i] == if in_region(
                i,
                dst_stride as int,
                bpp as int,
                put_channels(PixelMode::Raw, bpp as int),
                imax(x0 as int, 0),
                imin(imin(x1 as int, dst_w as int), src.width as int),
                imax(y0 as int, 0),
                imin(imin(y1 as int, dst_h as int), src.height as int),
            ) {
                src.data@[(py_of(i, dst_stride as int, bpp as int) * src.width + px_of(
                    i,
                    dst_stride as int,
                    bpp as int,
                )) * 4 + ch_of(i, bpp as int)]
            } else {
                old(dst)@[i]
            },
{
    let cx0 = if x0 > 0 { x0 } else { 0 };
    let cy0 = if y0 > 0 { y0 } else { 0 };
    let dw = dst_w as i32;
    let dh = dst_h as i32;
    let sw = src.width as i32;
    let sh = src.height as i32;
    let cx1a = if x1 < dw { x1 } else { dw };
    let cx1 = if cx1a < sw { cx1a } else { sw };
    let cy1a = if y1 < dh { y1 } else { dh };
    let cy1 = if cy1a < sh { cy1a } else { sh };
    if cx1 <= cx0 || cy1 <= cy0 || bpp == 0 {
        return;
    }
    put_rect(
        dst,
        dst_w,
        dst_h,
        dst_stride,
        bpp,
        src,
        cx0 as usize,
        cy0 as usize,
        cx1 as usize,
        cy1 as usize,
        cx0 as usize,
        cy0 as usize,
        PixelMode::Raw,
    );
}

/// Copies the row bitmap `row` onto the bitmap `dst` with its corner at
/// (`sx`, `sy`), clipped to `dst` (an empty bitmap on either side leaves
/// `dst` unchanged).
pub fn splice_row(dst: &mut Bitmap, row: &Bitmap, sx: i32, sy: i32)
    requires
        holds_pixels(old(dst)),
        holds_pixels(row),
        blit_in_range(old(dst).width as int, old(dst).height as int, row, sx as int, sy as int),
    ensures
        final(dst).width == old(dst).width,
        final(dst).height == old(dst).height,
        blit_result(
            old(dst).data@,
            final(dst).data@,
            old(dst).width as int,
            old(dst).height as int,
            old(dst).width as int,
            4,
            row,
            sx as int,
            sy as int,
            PixelMode::Convert,
        ),
{
    if dst.width == 0 || dst.height == 0 || row.width == 0 || row.height == 0 {
        proof {
            assert forall|i: int| 0 <= i < dst.data@.len() implies !#[trigger] in_region(
                i,
                dst.width as int,
                4,
                put_channels(PixelMode::Convert, 4),
                imax(sx as int, 0),
                imin(sx + row.width, dst.width as int),
                imax(sy as int, 0),
                imin(sy + row.height, dst.height as int),
            ) by {
                if dst.width > 0 && dst.height > 0 {
                    assert(row.width == 0 || row.height == 0);
                }
            }
        }
        return;
    }
    let w = dst.width as usize;
    let h = dst.height as usize;
    proof {
        assert(((h - 1) * w + w) * 4 == w * h * 4) by (nonlinear_arith);
    }
    copy_region(dst.data.as_mut_slice(), w, h, w, 4, row, sx, sy);
}

/// Bytes of a row written per pixel by `copy_row_rgba_to` for a `bpp`
/// format other than four bytes per pixel.
pub open spec fn row_pixels(dst_len: int, src_len: int, bpp: int) -> int {
    imin(dst_len / bpp, src_len / 4)
}

/// Copies a row of RGBA8 pixels (`src`, four bytes per pixel) into `dst` in
/// the buffer's format: four-byte buffers take the first `dst.len()` bytes
/// of `src` as they are; two-byte buffers take RGB565, other formats the
/// first `min(bpp, 3)` bytes of each pixel, for as many whole pixels as both
/// rows hold.
pub fn copy_row_rgba_to(dst: &mut [u8], src: &[u8], bpp: usize)
    requires
        bpp > 0,
        bpp == 4 ==> src@.len() >= old(dst)@.len(),
    ensures
        final(dst)@.len() == old(dst)@.len(),
        bpp == 4 ==> final(dst)@ == src@.take(old(dst)@.len() as int),
        bpp != 4 ==> forall|i: int|
            0 <= i < old(dst)@.len() ==> #[trigger] final(dst)@[i] == if i < row_pixels(
                old(dst)@.len() as int,
                src@.len() as int,
                bpp as int,
            ) * bpp && i % (bpp as int) < put_channels(PixelMode::Convert, bpp as int) {
                put_byte(
                    PixelMode::Convert,
                    src@,
                    (i / (bpp as int)) * 4,
                    bpp as int,
                    i % (bpp as int),
                    old(dst)@[i],
                )
            } else {
                old(dst)@[i]
            },
{
    let len = dst.len();
    if bpp == 4 {
        let mut i: usize = 0;
        while i < len
            invariant
                len == dst@.len(),
                len == old(dst)@.len(),
                src@.len() >= len,
                i <= len,
                forall|j: int| 0 <= j < i ==> dst@[j] == src@[j],
            decreases len - i,
        {
            dst[i] = src[i];
            i += 1;
        }
        assert(dst@ =~= src@.take(len as int));
    } else {
        let a = len / bpp;
        let b = src.len() / 4;
        let count = if a < b { a } else { b };
        proof {
            assert(count * bpp <= len) by (nonlinear_arith)
                requires
                    count <= len / bpp,
                    bpp > 0,
            ;
            assert(count * 4 <= src@.len()) by (nonlinear_arith)
                requires
                    count <= src@.len() / 4,
            ;
        }
        put_pixels(dst, 0, src, 0, count, bpp, PixelMode::Convert);
    }
}

/// `buf` with the visible part of every row filled with `color` (see
/// `fill_buffer`).
pub open spec fn filled(buf: Seq<u8>, w: int, h: int, stride: int, bpp: int, color: [u8; 4]) -> Seq<
    u8,
> {
    Seq::new(
        buf.len(),
        |i: int|
            if in_region(i, stride, bpp, fill_channels(bpp), 0, w, 0, h) {
                fill_byte(color, bpp, ch_of(i, bpp))
            } else {
                buf[i]
            },
    )
}

/// The library screen's buffer `out`, built from `buf` in three layers
/// with intermediate buffers `b2` (background and band) and `b3` (with the
/// header): see `compose_library`.
pub open spec fn library_layers(
    buf: Seq<u8>,
    b2: Seq<u8>,
    b3: Seq<u8>,
    out: Seq<u8>,
    dst_w: int,
    dst_h: int,
    dst_stride: int,
    bpp: int,
    bg: [u8; 4],
    header: Option<&Bitmap>,
    band: Option<(&Bitmap, i32)>,
    scroll: int,
    content_y0: int,
    toast: Option<(&Bitmap, i32, i32)>,
) -> bool {
    let b1 = filled(buf, dst_w, dst_h, dst_stride, bpp, bg);
    &&& match band {
        Some((b, origin)) => blit_result(
            b1,
            b2,
            dst_w,
            dst_h,
            dst_stride,
            bpp,
            b,
            0,
            content_y0 - (scroll - origin),
            PixelMode::Convert,
        ),
        None => b2 == b1,
    }
    &&& match header {
        Some(hd) => blit_result(b2, b3, dst_w, dst_h, dst_stride, bpp, hd, 0, 0, PixelMode::Blend),
        None => b3 == b2,
    }
    &&& match toast {
        Some((t, tx, ty)) => blit_result(
            b3,
            out,
            dst_w,
            dst_h,
            dst_stride,
            bpp,
            t,
            tx as int,
            ty as int,
            PixelMode::Blend,
        ),
        None => out == b3,
    }
}

/// Window buffer of the library screen: the background color, then the
/// scrolled band of rows (copied, converted to the buffer's format), then
/// the fixed header and the toast blended over it. The band's top row is
/// its row `scroll - origin` shown at `content_y0`.
pub fn compose_library(
    dst: &mut [u8],
    dst_w: usize,
    dst_h: usize,
    dst_stride: usize,
    bpp: usize,
    bg: [u8; 4],
    header: Option<&Bitmap>,
    band: Option<(&Bitmap, i32)>,
    scroll: i32,
    content_y0: i32,
    toast: Option<(&Bitmap, i32, i32)>,
)
    requires
        dst_w <= dst_stride,
        bpp > 0,
        buffer_fits(old(dst)@.len() as int, dst_w as int, dst_h as int, dst_stride as int, bpp as int),
        band matches Some((b, origin)) ==> {
            &&& holds_pixels(b)
            &&& i32::MIN <= scroll - origin <= i32::MAX
            &&& i32::MIN <= content_y0 - (scroll - origin) <= i32::MAX
            &&& blit_in_range(dst_w as int, dst_h as int, b, 0, content_y0 - (scroll - origin))
        },
        header matches Some(hd) ==> holds_pixels(hd) && blit_in_range(
            dst_w as int,
            dst_h as int,
            hd,
            0,
            0,
        ),
        toast matches Some((t, tx, ty)) ==> holds_pixels(t) && blit_in_range(
            dst_w as int,
            dst_h as int,
            t,
            tx as int,
            ty as int,
        ),
    ensures
        exists|b2: Seq<u8>, b3: Seq<u8>|
            #[trigger] library_layers(
                old(dst)@,
                b2,
                b3,
                final(dst)@,
                dst_w as int,
                dst_h as int,
                dst_stride as int,
                bpp as int,
                bg,
                header,
                band,
                scroll as int,
                content_y0 as int,
                toast,
            ),
{
    fill_buffer(dst, dst_w, dst_h, dst_stride, bpp, bg);
    proof {
        assert(dst@ =~= filled(
            old(dst)@,
            dst_w as int,
            dst_h as int,
            dst_stride as int,
            bpp as int,
            bg,
        ));
    }
    match band {
        Some((b, origin)) => {
            let sy = content_y0 - (scroll - origin);
            copy_region(dst, dst_w, dst_h, dst_stride, bpp, b, 0, sy);
        },
        None => {},
    }
    let ghost b2 = dst@;
    match header {
        Some(hd) => {
            copy_region_blend(dst, dst_w, dst_h, dst_stride, bpp, hd, 0, 0);
        },
        None => {},
    }
    let ghost b3 = dst@;
    match toast {
        Some((t, tx, ty)) => {
            copy_region_blend(dst, dst_w, dst_h, dst_stride, bpp, t, tx, ty);
        },
        None => {},
    }
    proof {
        assert(library_layers(
            old(dst)@,
            b2,
            b3,
            dst@,
            dst_w as int,
            dst_h as int,
            dst_stride as int,
            bpp as int,
            bg,
            header,
            band,
            scroll as int,
            content_y0 as int,
            toast,
        ));
    }
}

/// Whether a buffer of `len` bytes holds `h` rows of `stride` pixels of
/// `bpp` bytes with a last row of at least `w` pixels (`buffer_fits`), for
/// callers that must check it before a blit.
pub fn fits_buffer(len: usize, w: usize, h: usize, stride: usize, bpp: usize) -> (r: bool)
    ensures
        r == buffer_fits(len as int, w as int, h as int, stride as int, bpp as int),
{
    if w == 0 || h == 0 {
        return true;
    }
    if bpp == 0 {
        return true;
    }
    proof {
        assert(0 <= (h - 1) * stride <= 0xffff_ffff_ffff_ffff * 0xffff_ffff_ffff_ffff) by (nonlinear_arith)
            requires
                0 <= h - 1 <= 0xffff_ffff_ffff_ffff,
                0 <= stride <= 0xffff_ffff_ffff_ffff,
        ;
    }
    let a: u128 = (h - 1) as u128 * stride as u128 + w as u128;
    let q: usize = len / bpp;
    proof {
        let ai = a as int;
        let bi = bpp as int;
        let li = len as int;
        assert(ai * bi <= li <==> ai <= li / bi) by (nonlinear_arith)
            requires
                bi > 0,
                ai >= 0,
                li >= 0,
        {
            vstd::arithmetic::div_mod::lemma_fundamental_div_mod(li, bi);
            if ai <= li / bi {
                vstd::arithmetic::mul::lemma_mul_inequality(ai, li / bi, bi);
            } else {
                vstd::arithmetic::mul::lemma_mul_inequality(li / bi + 1, ai, bi);
            }
        }
    }
    a <= q as u128
}


/// Byte `c` of pixel (`x`, `y`) of a four-byte buffer lies in the pixel's
/// channel range: the row, column and channel the blit formulas read back.
proof fn lemma_rgba_byte(x: int, y: int, stride: int, c: int)
    requires
        0 <= x < stride,
        0 <= y,
        0 <= c < 4,
    ensures
        ({
            let i = pixel_base(x, y, stride, 4) + c;
            &&& 0 <= i
            &&& px_of(i, stride, 4) == x
            &&& py_of(i, stride, 4) == y
            &&& ch_of(i, 4) == c
        }),
{
    assert(0 <= y * stride + x) by (nonlinear_arith)
        requires
            0 <= x,
            0 <= y,
            stride >= 0,
    ;
    assert(0 <= pixel_base(x, y, stride, 4)) by (nonlinear_arith)
        requires
            0 <= y * stride + x,
    ;
    lemma_pixel_iff(pixel_base(x, y, stride, 4) + c, x, y, stride, 4, 4);
}

/// Source-over blending of an overlay on a four-byte buffer, pixel by
/// pixel: where the overlay covers buffer pixel (`x`, `y`) with alpha `a`,
/// a transparent pixel (`a == 0`) leaves the buffer as it was, an opaque
/// one (`a == 255`) is copied, and a translucent one sets each color
/// channel to `(s·a + d·(255 − a)) / 255` (`s` the overlay's, `d` the
/// buffer's) and keeps the buffer's alpha byte.
pub proof fn law_blend_pixel(
    old: Seq<u8>,
    new: Seq<u8>,
    dst_w: int,
    dst_h: int,
    stride: int,
    src: &Bitmap,
    sx: int,
    sy: int,
    x: int,
    y: int,
    c: int,
)
    requires
        blit_result(old, new, dst_w, dst_h, stride, 4, src, sx, sy, PixelMode::Blend),
        dst_w <= stride,
        0 <= x < dst_w,
        0 <= y < dst_h,
        sx <= x < sx + src.width,
        sy <= y < sy + src.height,
        0 <= c < 4,
        pixel_base(x, y, stride, 4) + 4 <= old.len(),
    ensures
        ({
            let i = pixel_base(x, y, stride, 4) + c;
            let k = ((y - sy) * src.width + (x - sx)) * 4;
            let a = src.data@[k + 3] as int;
            let s = src.data@[k + c] as int;
            let d = old[i] as int;
            &&& a == 0 ==> new[i] == old[i]
            &&& a == 255 ==> new[i] == src.data@[k + c]
            &&& 0 < a < 255 && c < 3 ==> new[i] as int == (s * a + d * (255 - a)) / 255
            &&& 0 < a < 255 && c == 3 ==> new[i] == old[i]
        }),
{
    let i = pixel_base(x, y, stride, 4) + c;
    lemma_rgba_byte(x, y, stride, c);
    assert(in_region(
        i,
        stride,
        4,
        put_channels(PixelMode::Blend, 4),
        imax(sx, 0),
        imin(sx + src.width, dst_w),
        imax(sy, 0),
        imin(sy + src.height, dst_h),
    ));
    let k = ((y - sy) * src.width + (x - sx)) * 4;
    let a = src.data@[k + 3] as int;
    let s = src.data@[k + c] as int;
    let d = old[i] as int;
    assert(0 <= s * a + d * (255 - a) <= 255 * 255) by (nonlinear_arith)
        requires
            0 <= s <= 255,
            0 <= d <= 255,
            0 <= a <= 255,
    ;
}

/// A band copied onto a four-byte buffer takes the band's bytes where it
/// covers the buffer.
pub proof fn law_copy_pixel(
    old: Seq<u8>,
    new: Seq<u8>,
    dst_w: int,
    dst_h: int,
    stride: int,
    src: &Bitmap,
    sx: int,
    sy: int,
    x: int,
    y: int,
    c: int,
)
    requires
        blit_result(old, new, dst_w, dst_h, stride, 4, src, sx, sy, PixelMode::Convert),
        dst_w <= stride,
        0 <= x < dst_w,
        0 <= y < dst_h,
        sx <= x < sx + src.width,
        sy <= y < sy + src.height,
        0 <= c < 4,
        pixel_base(x, y, stride, 4) + 4 <= old.len(),
    ensures
        new[pixel_base(x, y, stride, 4) + c] == src.data@[((y - sy) * src.width + (x - sx)) * 4
            + c],
{
    let i = pixel_base(x, y, stride, 4) + c;
    lemma_rgba_byte(x, y, stride, c);
    assert(in_region(
        i,
        stride,
        4,
        put_channels(PixelMode::Convert, 4),
        imax(sx, 0),
        imin(sx + src.width, dst_w),
        imax(sy, 0),
        imin(sy + src.height, dst_h),
    ));
}

/// The composed library screen (four-byte buffer) lays its bitmaps
/// bottom up: the band is copied over the background, then the header and
/// the toast are blended source-over on what lies below them. Where the
/// toast covers pixel (`x`, `y`), a transparent toast pixel leaves the
/// screen below it unchanged, an opaque one replaces it, and a translucent
/// one mixes its color channels `(s·a + d·(255 − a)) / 255`, keeping the
/// alpha byte below; the header likewise over the band. Without a toast
/// the screen is what lies below.
pub proof fn law_library_layers(
    buf: Seq<u8>,
    b2: Seq<u8>,
    b3: Seq<u8>,
    out: Seq<u8>,
    dst_w: int,
    dst_h: int,
    stride: int,
    bg: [u8; 4],
    header: Option<&Bitmap>,
    band: Option<(&Bitmap, i32)>,
    scroll: int,
    content_y0: int,
    toast: Option<(&Bitmap, i32, i32)>,
    x: int,
    y: int,
    c: int,
)
    requires
        library_layers(
            buf,
            b2,
            b3,
            out,
            dst_w,
            dst_h,
            stride,
            4,
            bg,
            header,
            band,
            scroll,
            content_y0,
            toast,
        ),
        dst_w <= stride,
        0 <= x < dst_w,
        0 <= y < dst_h,
        0 <= c < 4,
        pixel_base(x, y, stride, 4) + 4 <= buf.len(),
    ensures
        ({
            let i = pixel_base(x, y, stride, 4) + c;
            &&& toast is None ==> out == b3
            &&& header is None ==> b3 == b2
            &&& toast matches Some((t, tx, ty)) ==> (tx <= x < tx + t.width && ty <= y < ty
                + t.height ==> {
                let k = ((y - ty) * t.width + (x - tx)) * 4;
                let a = t.data@[k + 3] as int;
                &&& a == 0 ==> out[i] == b3[i]
                &&& a == 255 ==> out[i] == t.data@[k + c]
                &&& 0 < a < 255 && c < 3 ==> out[i] as int == (t.data@[k + c] as int * a
                    + b3[i] as int * (255 - a)) / 255
                &&& 0 < a < 255 && c == 3 ==> out[i] == b3[i]
            })
            &&& header matches Some(hd) ==> (x < hd.width && y < hd.height ==> {
                let k = (y * hd.width + x) * 4;
                let a = hd.data@[k + 3] as int;
                &&& a == 0 ==> b3[i] == b2[i]
                &&& a == 255 ==> b3[i] == hd.data@[k + c]
                &&& 0 < a < 255 && c < 3 ==> b3[i] as int == (hd.data@[k + c] as int * a
                    + b2[i] as int * (255 - a)) / 255
                &&& 0 < a < 255 && c == 3 ==> b3[i] == b2[i]
            })
            &&& band matches Some((bd, origin)) ==> (content_y0 - (scroll - origin) <= y
                < content_y0 - (scroll - origin) + bd.height && x < bd.width ==> b2[i]
                == bd.data@[((y - (content_y0 - (scroll - origin))) * bd.width + x) * 4 + c])
        }),
{
    let b1 = filled(buf, dst_w, dst_h, stride, 4, bg);
    assert(b1.len() == buf.len());
    assert(b2.len() == buf.len());
    assert(b3.len() == buf.len());
    match toast {
        Some((t, tx, ty)) => {
            if tx <= x < tx + t.width && ty <= y < ty + t.height {
                law_blend_pixel(b3, out, dst_w, dst_h, stride, t, tx as int, ty as int, x, y, c);
            }
        },
        None => {},
    }
    match header {
        Some(hd) => {
            if x < hd.width && y < hd.height {
                law_blend_pixel(b2, b3, dst_w, dst_h, stride, hd, 0, 0, x, y, c);
            }
        },
        None => {},
    }
    match band {
        Some((bd, origin)) => {
            let sy = content_y0 - (scroll - origin);
            if sy <= y < sy + bd.height && x < bd.width {
                law_copy_pixel(b1, b2, dst_w, dst_h, stride, bd, 0, sy, x, y, c);
            }
        },
        None => {},
    }
}


/// An RGB565 value keeps the top five bits of red in bits 11–15, the top
/// six of green in bits 5–10 and the top five of blue in bits 0–4.
pub proof fn law_rgb565_fields(r: u8, g: u8, b: u8)
    ensures
        rgb565_spec(r, g, b) as int / 2048 == r as int / 8,
        (rgb565_spec(r, g, b) as int / 32) % 64 == g as int / 4,
        rgb565_spec(r, g, b) as int % 32 == b as int / 8,
{
    let rr = r as int / 8;
    let gg = g as int / 4;
    let bb = b as int / 8;
    let v = rr * 2048 + gg * 32 + bb;
    assert(0 <= rr < 32 && 0 <= gg < 64 && 0 <= bb < 32);
    assert(0 <= v < 0x10000);
    assert(rgb565_spec(r, g, b) as int == v);
    vstd::arithmetic::div_mod::lemma_fundamental_div_mod_converse(v, 2048, rr, gg * 32 + bb);
    vstd::arithmetic::div_mod::lemma_fundamental_div_mod_converse(v, 32, rr * 64 + gg, bb);
    vstd::arithmetic::div_mod::lemma_fundamental_div_mod_converse(rr * 64 + gg, 64, rr, gg);
}


/// Byte `c` of pixel (`x`, `y`) lies in the pixel's channel range.
proof fn lemma_pixel_byte(x: int, y: int, stride: int, bpp: int, c: int)
    requires
        0 <= x < stride,
        0 <= y,
        bpp > 0,
        0 <= c < bpp,
    ensures
        ({
            let i = pixel_base(x, y, stride, bpp) + c;
            &&& 0 <= i
            &&& px_of(i, stride, bpp) == x
            &&& py_of(i, stride, bpp) == y
            &&& ch_of(i, bpp) == c
        }),
{
    assert(0 <= y * stride + x) by (nonlinear_arith)
        requires
            0 <= x,
            0 <= y,
            stride >= 0,
    ;
    assert(0 <= pixel_base(x, y, stride, bpp)) by (nonlinear_arith)
        requires
            0 <= y * stride + x,
            bpp > 0,
    ;
    lemma_pixel_iff(pixel_base(x, y, stride, bpp) + c, x, y, stride, bpp, bpp);
}

/// Filling paints every visible pixel with the color in the buffer's
/// format: the RGBA bytes for four-byte pixels, the RGB565 value low byte
/// first for two-byte pixels, the first `bpp` color bytes for one- and
/// three-byte pixels; the padding pixels of each row (columns `w` to
/// `stride − 1`) keep their bytes.
pub proof fn law_fill_pixel(
    buf: Seq<u8>,
    w: int,
    h: int,
    stride: int,
    bpp: int,
    color: [u8; 4],
    x: int,
    y: int,
    c: int,
)
    requires
        w <= stride,
        0 <= x < stride,
        0 <= y < h,
        1 <= bpp <= 4,
        0 <= c < bpp,
    ensures
        ({
            let i = pixel_base(x, y, stride, bpp) + c;
            let f = filled(buf, w, h, stride, bpp, color);
            let v = rgb565_spec(color@[0], color@[1], color@[2]) as int;
            &&& 0 <= i < buf.len() ==> {
                &&& x < w && bpp != 2 ==> f[i] == color@[c]
                &&& x < w && bpp == 2 && c == 0 ==> f[i] as int == v % 256
                &&& x < w && bpp == 2 && c == 1 ==> f[i] as int == v / 256
                &&& x >= w ==> f[i] == buf[i]
            }
        }),
{
    lemma_pixel_byte(x, y, stride, bpp, c);
    let v = rgb565_spec(color@[0], color@[1], color@[2]) as int;
    assert(0 <= v < 0x10000);
}

/// Copying a bitmap onto two- or three-byte pixels converts each covered
/// pixel: RGB565 of the source's red, green and blue, low byte first, or
/// the source's first three bytes.
pub proof fn law_convert_pixel(
    old: Seq<u8>,
    new: Seq<u8>,
    dst_w: int,
    dst_h: int,
    stride: int,
    bpp: int,
    src: &Bitmap,
    sx: int,
    sy: int,
    x: int,
    y: int,
    c: int,
)
    requires
        blit_result(old, new, dst_w, dst_h, stride, bpp, src, sx, sy, PixelMode::Convert),
        bpp == 2 || bpp == 3,
        dst_w <= stride,
        0 <= x < dst_w,
        0 <= y < dst_h,
        sx <= x < sx + src.width,
        sy <= y < sy + src.height,
        0 <= c < bpp,
        pixel_base(x, y, stride, bpp) + bpp <= old.len(),
    ensures
        ({
            let i = pixel_base(x, y, stride, bpp) + c;
            let k = ((y - sy) * src.width + (x - sx)) * 4;
            let v = rgb565_spec(src.data@[k], src.data@[k + 1], src.data@[k + 2]) as int;
            &&& bpp == 3 ==> new[i] == src.data@[k + c]
            &&& bpp == 2 && c == 0 ==> new[i] as int == v % 256
            &&& bpp == 2 && c == 1 ==> new[i] as int == v / 256
        }),
{
    let i = pixel_base(x, y, stride, bpp) + c;
    lemma_pixel_byte(x, y, stride, bpp, c);
    assert(in_region(
        i,
        stride,
        bpp,
        put_channels(PixelMode::Convert, bpp),
        imax(sx, 0),
        imin(sx + src.width, dst_w),
        imax(sy, 0),
        imin(sy + src.height, dst_h),
    ));
    let k = ((y - sy) * src.width + (x - sx)) * 4;
    let v = rgb565_spec(src.data@[k], src.data@[k + 1], src.data@[k + 2]) as int;
    assert(0 <= v < 0x10000);
}

} // verus!
