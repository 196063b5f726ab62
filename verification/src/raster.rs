//! Ink rasterizer: Bresenham lines between integer pixel positions and a
//! round brush (disc of offsets) stamped at every pixel of the line. The
//! same rasterizer paints live and saved strokes.

use vstd::prelude::*;

use crate::pixels::{
    blend_channel, blend_u8, buffer_fits, le_byte, lemma_pixel_iff, lemma_pixel_in_buffer, pixel_base, rgb565_bytes,
    rgb565_spec, write_px,
};

verus! {

/// Absolute value.
pub open spec fn iabs(v: int) -> int {
    if v < 0 {
        -v
    } else {
        v
    }
}

/// Step direction from `a` towards `b` (`-1` when they are equal).
pub open spec fn step_dir(a: int, b: int) -> int {
    if a < b {
        1
    } else {
        -1
    }
}

/// Pixels visited by Bresenham's walk from (`x`, `y`) with error term
/// `err` towards (`x1`, `y1`), for at most `fuel` pixels. Each step moves
/// along x when `2·err ≥ −ady` and along y when `2·err ≤ adx`.
pub open spec fn bres_walk(
    x: int,
    y: int,
    err: int,
    x1: int,
    y1: int,
    adx: int,
    ady: int,
    sx: int,
    sy: int,
    fuel: nat,
) -> Seq<(i32, i32)>
    decreases fuel,
{
    if fuel == 0 {
        Seq::empty()
    } else if x == x1 && y == y1 {
        seq![(x as i32, y as i32)]
    } else {
        let e2 = 2 * err;
        let x2 = if e2 >= -ady {
            x + sx
        } else {
            x
        };
        let err2 = if e2 >= -ady {
            err - ady
        } else {
            err
        };
        let y2 = if e2 <= adx {
            y + sy
        } else {
            y
        };
        let err3 = if e2 <= adx {
            err2 + adx
        } else {
            err2
        };
        seq![(x as i32, y as i32)] + bres_walk(x2, y2, err3, x1, y1, adx, ady, sx, sy, (fuel - 1) as nat)
    }
}

/// Pixels of the Bresenham line from (`x0`, `y0`) to (`x1`, `y1`), both
/// ends included.
pub open spec fn bresenham_points(x0: int, y0: int, x1: int, y1: int) -> Seq<(i32, i32)> {
    let adx = iabs(x1 - x0);
    let ady = iabs(y1 - y0);
    bres_walk(
        x0,
        y0,
        adx - ady,
        x1,
        y1,
        adx,
        ady,
        step_dir(x0, x1),
        step_dir(y0, y1),
        (adx + ady + 1) as nat,
    )
}

/// State of the walk: `tx`/`ty` steps done along each axis (never past the
/// target) and the error term tied to them.
pub open spec fn bres_inv(x: int, y: int, err: int, x0: int, y0: int, x1: int, y1: int) -> bool {
    let adx = iabs(x1 - x0);
    let ady = iabs(y1 - y0);
    let sx = step_dir(x0, x1);
    let sy = step_dir(y0, y1);
    let tx = (x - x0) * sx;
    let ty = (y - y0) * sy;
    &&& 0 <= tx <= adx
    &&& 0 <= ty <= ady
    &&& err == adx * (ty + 1) - ady * (tx + 1)
}

/// Remaining distance of the walk.
pub open spec fn bres_left(x: int, y: int, x0: int, y0: int, x1: int, y1: int) -> int {
    (iabs(x1 - x0) - (x - x0) * step_dir(x0, x1)) + (iabs(y1 - y0) - (y - y0) * step_dir(y0, y1))
}

/// One step of the walk keeps the invariant, moves one pixel along x, y or
/// both (towards the target) and shortens the remaining distance.
pub proof fn lemma_bres_step(x: int, y: int, err: int, x0: int, y0: int, x1: int, y1: int)
    requires
        bres_inv(x, y, err, x0, y0, x1, y1),
        !(x == x1 && y == y1),
    ensures
        ({
            let adx = iabs(x1 - x0);
            let ady = iabs(y1 - y0);
            let sx = step_dir(x0, x1);
            let sy = step_dir(y0, y1);
            let e2 = 2 * err;
            let x2 = if e2 >= -ady {
                x + sx
            } else {
                x
            };
            let err2 = if e2 >= -ady {
                err - ady
            } else {
                err
            };
            let y2 = if e2 <= adx {
                y + sy
            } else {
                y
            };
            let err3 = if e2 <= adx {
                err2 + adx
            } else {
                err2
            };
            &&& bres_inv(x2, y2, err3, x0, y0, x1, y1)
            &&& bres_left(x2, y2, x0, y0, x1, y1) < bres_left(x, y, x0, y0, x1, y1)
            &&& (e2 >= -ady || e2 <= adx)
        }),
{
    let adx = iabs(x1 - x0);
    let ady = iabs(y1 - y0);
    let sx = step_dir(x0, x1);
    let sy = step_dir(y0, y1);
    let tx = (x - x0) * sx;
    let ty = (y - y0) * sy;
    let e2 = 2 * err;
    assert(x1 == x0 + sx * adx) by {
        if x0 < x1 {
        } else {
        }
    }
    assert(y1 == y0 + sy * ady) by {
        if y0 < y1 {
        } else {
        }
    }
    if tx == adx {
        assert(x == x1) by (nonlinear_arith)
            requires
                tx == (x - x0) * sx,
                x1 == x0 + sx * adx,
                tx == adx,
                sx == 1 || sx == -1,
        ;
        assert(ty < ady) by {
            if ty == ady {
                assert(y == y1) by (nonlinear_arith)
                    requires
                        ty == (y - y0) * sy,
                        y1 == y0 + sy * ady,
                        ty == ady,
                        sy == 1 || sy == -1,
                ;
            }
        }
        assert(e2 < -ady) by (nonlinear_arith)
            requires
                err == adx * (ty + 1) - ady * (tx + 1),
                tx == adx,
                0 <= ty < ady,
                adx >= 0,
                e2 == 2 * err,
        ;
    }
    if ty == ady {
        assert(y == y1) by (nonlinear_arith)
            requires
                ty == (y - y0) * sy,
                y1 == y0 + sy * ady,
                ty == ady,
                sy == 1 || sy == -1,
        ;
        assert(tx < adx) by {
            if tx == adx {
                assert(x == x1) by (nonlinear_arith)
                    requires
                        tx == (x - x0) * sx,
                        x1 == x0 + sx * adx,
                        tx == adx,
                        sx == 1 || sx == -1,
                ;
            }
        }
        assert(e2 > adx) by (nonlinear_arith)
            requires
                err == adx * (ty + 1) - ady * (tx + 1),
                ty == ady,
                0 <= tx < adx,
                ady >= 0,
                e2 == 2 * err,
        ;
    }
    if e2 >= -ady {
        assert((x + sx - x0) * sx == tx + 1) by (nonlinear_arith)
            requires
                tx == (x - x0) * sx,
                sx == 1 || sx == -1,
        ;
    }
    if e2 <= adx {
        assert((y + sy - y0) * sy == ty + 1) by (nonlinear_arith)
            requires
                ty == (y - y0) * sy,
                sy == 1 || sy == -1,
        ;
    }
    assert(adx * (ty + 1 + 1) == adx * (ty + 1) + adx) by (nonlinear_arith);
    assert(ady * (tx + 1 + 1) == ady * (tx + 1) + ady) by (nonlinear_arith);
}

/// While the walk has fuel for its remaining distance it ends exactly on
/// the target, every pixel satisfies the invariant, and consecutive pixels
/// are one king move apart, towards the target.
pub proof fn lemma_bres_walk(x: int, y: int, err: int, x0: int, y0: int, x1: int, y1: int, fuel: nat)
    requires
        bres_inv(x, y, err, x0, y0, x1, y1),
        fuel >= bres_left(x, y, x0, y0, x1, y1) + 1,
        i32::MIN <= x0 <= i32::MAX,
        i32::MIN <= y0 <= i32::MAX,
        i32::MIN <= x1 <= i32::MAX,
        i32::MIN <= y1 <= i32::MAX,
    ensures
        ({
            let s = bres_walk(
                x,
                y,
                err,
                x1,
                y1,
                iabs(x1 - x0),
                iabs(y1 - y0),
                step_dir(x0, x1),
                step_dir(y0, y1),
                fuel,
            );
            &&& s.len() >= 1
            &&& s.len() <= bres_left(x, y, x0, y0, x1, y1) + 1
            &&& s[0] == (x as i32, y as i32)
            &&& s.last() == (x1 as i32, y1 as i32)
            &&& forall|k: int|
                #![trigger s[k]]
                0 <= k < s.len() - 1 ==> {
                    let dxk = s[k + 1].0 - s[k].0;
                    let dyk = s[k + 1].1 - s[k].1;
                    &&& (dxk == 0 || dxk == step_dir(x0, x1))
                    &&& (dyk == 0 || dyk == step_dir(y0, y1))
                    &&& (dxk != 0 || dyk != 0)
                }
        }),
    decreases fuel,
{
    let adx = iabs(x1 - x0);
    let ady = iabs(y1 - y0);
    let sx = step_dir(x0, x1);
    let sy = step_dir(y0, y1);
    if x == x1 && y == y1 {
    } else {
        let e2 = 2 * err;
        let x2 = if e2 >= -ady {
            x + sx
        } else {
            x
        };
        let err2 = if e2 >= -ady {
            err - ady
        } else {
            err
        };
        let y2 = if e2 <= adx {
            y + sy
        } else {
            y
        };
        let err3 = if e2 <= adx {
            err2 + adx
        } else {
            err2
        };
        lemma_bres_step(x, y, err, x0, y0, x1, y1);
        lemma_bres_walk(x2, y2, err3, x0, y0, x1, y1, (fuel - 1) as nat);
        let t = bres_walk(x2, y2, err3, x1, y1, adx, ady, sx, sy, (fuel - 1) as nat);
        let s = bres_walk(x, y, err, x1, y1, adx, ady, sx, sy, fuel);
        assert(s == seq![(x as i32, y as i32)] + t);
        assert(x2 as i32 - x as i32 == x2 - x) by {
            lemma_bres_in_range(x2, y2, err3, x0, y0, x1, y1);
            lemma_bres_in_range(x, y, err, x0, y0, x1, y1);
        }
        assert(y2 as i32 - y as i32 == y2 - y) by {
            lemma_bres_in_range(x2, y2, err3, x0, y0, x1, y1);
            lemma_bres_in_range(x, y, err, x0, y0, x1, y1);
        }
        assert forall|k: int| #![trigger s[k]] 0 <= k < s.len() - 1 implies {
            let dxk = s[k + 1].0 - s[k].0;
            let dyk = s[k + 1].1 - s[k].1;
            &&& (dxk == 0 || dxk == sx)
            &&& (dyk == 0 || dyk == sy)
            &&& (dxk != 0 || dyk != 0)
        } by {
            if k > 0 {
                assert(s[k] == t[k - 1]);
                assert(s[k + 1] == t[k]);
            }
        }
    }
}

/// Every pixel of the walk lies between the two ends, so it fits in `i32`.
pub proof fn lemma_bres_in_range(x: int, y: int, err: int, x0: int, y0: int, x1: int, y1: int)
    requires
        bres_inv(x, y, err, x0, y0, x1, y1),
        i32::MIN <= x0 <= i32::MAX,
        i32::MIN <= y0 <= i32::MAX,
        i32::MIN <= x1 <= i32::MAX,
        i32::MIN <= y1 <= i32::MAX,
    ensures
        i32::MIN <= x <= i32::MAX,
        i32::MIN <= y <= i32::MAX,
{
    let adx = iabs(x1 - x0);
    let ady = iabs(y1 - y0);
    let sx = step_dir(x0, x1);
    let sy = step_dir(y0, y1);
    let tx = (x - x0) * sx;
    let ty = (y - y0) * sy;
    if sx == 1 {
        assert(x == x0 + tx);
    } else {
        assert(x == x0 - tx);
    }
    if sy == 1 {
        assert(y == y0 + ty);
    } else {
        assert(y == y0 - ty);
    }
}

/// Pixels of the line from (`x0`, `y0`) to (`x1`, `y1`) by Bresenham's
/// algorithm (integer octants), both ends included, in walking order.
pub fn bresenham(x0: i32, y0: i32, x1: i32, y1: i32) -> (pts: Vec<(i32, i32)>)
    ensures
        pts@ == bresenham_points(x0 as int, y0 as int, x1 as int, y1 as int),
{
    let ddx: i64 = x1 as i64 - x0 as i64;
    let ddy: i64 = y1 as i64 - y0 as i64;
    let adx: i64 = if ddx < 0 { -ddx } else { ddx };
    let ady: i64 = if ddy < 0 { -ddy } else { ddy };
    let sx: i32 = if x0 < x1 { 1 } else { -1 };
    let sy: i32 = if y0 < y1 { 1 } else { -1 };
    let dx = adx as i128;
    let dy = -(ady as i128);
    let mut err: i128 = dx + dy;
    let mut x = x0;
    let mut y = y0;
    let ghost fuel0: nat = (adx + ady + 1) as nat;
    let ghost full = bresenham_points(x0 as int, y0 as int, x1 as int, y1 as int);
    let ghost mut fuel: nat = fuel0;
    let mut pts: Vec<(i32, i32)> = Vec::new();
    pts.push((x, y));
    proof {
        assert((x - x0) * sx == 0 && (y - y0) * sy == 0) by (nonlinear_arith)
            requires
                x == x0,
                y == y0,
        ;
        assert(adx * (0 + 1) - ady * (0 + 1) == adx - ady) by (nonlinear_arith);
        assert(bres_inv(x as int, y as int, err as int, x0 as int, y0 as int, x1 as int, y1 as int));
        assert(pts@.drop_last() =~= Seq::<(i32, i32)>::empty());
        assert(Seq::<(i32, i32)>::empty() + full =~= full);
    }
    while !(x == x1 && y == y1)
        invariant
            adx == iabs(x1 - x0),
            ady == iabs(y1 - y0),
            dx == adx,
            dy == -ady,
            sx == step_dir(x0 as int, x1 as int),
            sy == step_dir(y0 as int, y1 as int),
            bres_inv(x as int, y as int, err as int, x0 as int, y0 as int, x1 as int, y1 as int),
            fuel >= bres_left(x as int, y as int, x0 as int, y0 as int, x1 as int, y1 as int) + 1,
            full == pts@.drop_last() + bres_walk(
                x as int,
                y as int,
                err as int,
                x1 as int,
                y1 as int,
                adx as int,
                ady as int,
                sx as int,
                sy as int,
                fuel,
            ),
            pts@.len() >= 1,
            pts@.last() == (x, y),
            full == bresenham_points(x0 as int, y0 as int, x1 as int, y1 as int),
        decreases bres_left(x as int, y as int, x0 as int, y0 as int, x1 as int, y1 as int),
    {
        let ghost prev = pts@;
        let ghost (ox, oy, oerr) = (x as int, y as int, err as int);
        proof {
            lemma_bres_step(x as int, y as int, err as int, x0 as int, y0 as int, x1 as int, y1 as int);
            let tx = (x - x0) * sx;
            let ty = (y - y0) * sy;
            assert(-(ady * (adx + 1)) <= err <= adx * (ady + 1)) by (nonlinear_arith)
                requires
                    err == adx * (ty + 1) - ady * (tx + 1),
                    0 <= tx <= adx,
                    0 <= ty <= ady,
                    adx >= 0,
                    ady >= 0,
            ;
            assert(adx <= 0x1_0000_0000 && ady <= 0x1_0000_0000);
            assert(adx * (ady + 1) <= 0x1_0000_0000 * 0x1_0000_0001) by (nonlinear_arith)
                requires
                    0 <= adx <= 0x1_0000_0000,
                    0 <= ady <= 0x1_0000_0000,
            ;
            assert(ady * (adx + 1) <= 0x1_0000_0000 * 0x1_0000_0001) by (nonlinear_arith)
                requires
                    0 <= adx <= 0x1_0000_0000,
                    0 <= ady <= 0x1_0000_0000,
            ;
        }
        let e2 = 2 * err;
        proof {
            let ge2 = 2 * oerr;
            let x2 = if ge2 >= -ady { ox + sx } else { ox };
            let err2 = if ge2 >= -ady { oerr - ady } else { oerr };
            let y2 = if ge2 <= adx { oy + sy } else { oy };
            let err3 = if ge2 <= adx { err2 + adx } else { err2 };
            lemma_bres_in_range(x2, y2, err3, x0 as int, y0 as int, x1 as int, y1 as int);
        }
        if e2 >= dy {
            err = err + dy;
            x = x + sx;
        }
        if e2 <= dx {
            err = err + dx;
            y = y + sy;
        }
        pts.push((x, y));
        proof {
            fuel = (fuel - 1) as nat;
            assert(pts@.drop_last() =~= prev);
            assert(prev.drop_last() + seq![(ox as i32, oy as i32)] =~= prev);
        }
    }
    proof {
        assert(pts@ =~= pts@.drop_last() + seq![(x, y)]);
    }
    pts
}

/// Bytes of a buffer pixel that ink of `color` writes: the three color
/// channels of a four-byte pixel (none when fully transparent), the two
/// bytes of an RGB565 pixel, the first `min(bpp, 3)` bytes otherwise.
pub open spec fn ink_count(color: [u8; 4], bpp: int) -> int {
    if bpp == 4 {
        if color@[3] == 0 {
            0
        } else {
            3
        }
    } else if bpp == 2 {
        2
    } else if bpp < 3 {
        bpp
    } else {
        3
    }
}

/// New value of channel `c` of an inked pixel whose old value is `old`:
/// four-byte pixels blend the color over the pixel by its alpha (copy when
/// opaque), two-byte pixels take the little-endian RGB565 value, other
/// formats the color's bytes.
pub open spec fn ink_val(color: [u8; 4], bpp: int, c: int, old: u8) -> u8 {
    if bpp == 4 {
        if color@[3] == 255 {
            color@[c]
        } else {
            blend_channel(color@[c], old, color@[3])
        }
    } else if bpp == 2 {
        le_byte(rgb565_spec(color@[0], color@[1], color@[2]), c)
    } else {
        color@[c]
    }
}

/// `buf` with pixel (`px`, `py`) inked with `color`, when it lies inside
/// the `w × h` window; unchanged otherwise.
pub open spec fn ink_pixel(
    buf: Seq<u8>,
    w: int,
    h: int,
    stride: int,
    bpp: int,
    px: int,
    py: int,
    color: [u8; 4],
) -> Seq<u8> {
    if 0 <= px < w && 0 <= py < h {
        let b = pixel_base(px, py, stride, bpp);
        Seq::new(
            buf.len(),
            |i: int|
                if b <= i < b + ink_count(color, bpp) {
                    ink_val(color, bpp, i - b, buf[i])
                } else {
                    buf[i]
                },
        )
    } else {
        buf
    }
}

/// `buf` after the brush `disc` (pixel offsets, applied in order) is
/// stamped at (`x`, `y`).
pub open spec fn stamp_spec(
    buf: Seq<u8>,
    w: int,
    h: int,
    stride: int,
    bpp: int,
    x: int,
    y: int,
    disc: Seq<(i32, i32)>,
    color: [u8; 4],
) -> Seq<u8>
    decreases disc.len(),
{
    if disc.len() == 0 {
        buf
    } else {
        ink_pixel(
            stamp_spec(buf, w, h, stride, bpp, x, y, disc.drop_last(), color),
            w,
            h,
            stride,
            bpp,
            x + disc.last().0,
            y + disc.last().1,
            color,
        )
    }
}

/// `buf` after the brush is stamped at every point of `pts`, in order.
pub open spec fn stroke_spec(
    buf: Seq<u8>,
    w: int,
    h: int,
    stride: int,
    bpp: int,
    pts: Seq<(i32, i32)>,
    disc: Seq<(i32, i32)>,
    color: [u8; 4],
) -> Seq<u8>
    decreases pts.len(),
{
    if pts.len() == 0 {
        buf
    } else {
        stamp_spec(
            stroke_spec(buf, w, h, stride, bpp, pts.drop_last(), disc, color),
            w,
            h,
            stride,
            bpp,
            pts.last().0 as int,
            pts.last().1 as int,
            disc,
            color,
        )
    }
}

/// Inks pixel (`px`, `py`) when it lies inside the window.
fn ink_one(
    dst: &mut [u8],
    w: usize,
    h: usize,
    stride: usize,
    bpp: usize,
    px: i64,
    py: i64,
    color: [u8; 4],
)
    requires
        w <= stride,
        buffer_fits(old(dst)@.len() as int, w as int, h as int, stride as int, bpp as int),
    ensures
        final(dst)@ == ink_pixel(
            old(dst)@,
            w as int,
            h as int,
            stride as int,
            bpp as int,
            px as int,
            py as int,
            color,
        ),
{
    let len = dst.len();
    if px < 0 || py < 0 || px as i128 >= w as i128 || py as i128 >= h as i128 || bpp == 0 {
        proof {
            if 0 <= px < w && 0 <= py < h {
                assert(ink_count(color, 0) == 0);
                assert(ink_pixel(old(dst)@, w as int, h as int, stride as int, 0, px as int, py as int, color) =~= old(dst)@);
            }
        }
        return;
    }
    let x = px as usize;
    let y = py as usize;
    proof {
        lemma_pixel_in_buffer(
            x as int,
            y as int,
            w as int,
            h as int,
            stride as int,
            bpp as int,
            dst@.len() as int,
        );
    }
    let base = (y * stride + x) * bpp;
    let ghost b = base as int;
    let ghost old_buf = dst@;
    let a = color[3];
    if bpp == 4 {
        if a == 0 {
            proof {
                assert(ink_pixel(old_buf, w as int, h as int, stride as int, 4, px as int, py as int, color) =~= old_buf);
            }
            return;
        }
        let vals: [u8; 4] = if a == 255 {
            [color[0], color[1], color[2], 0]
        } else {
            [
                blend_u8(color[0], dst[base], a),
                blend_u8(color[1], dst[base + 1], a),
                blend_u8(color[2], dst[base + 2], a),
                0,
            ]
        };
        write_px(dst, base, vals, 3);
    } else if bpp == 2 {
        let vals = rgb565_bytes(color[0], color[1], color[2]);
        write_px(dst, base, vals, 2);
    } else {
        let n = if bpp < 3 {
            bpp
        } else {
            3
        };
        write_px(dst, base, color, n);
    }
    proof {
        assert(dst@ =~= ink_pixel(
            old_buf,
            w as int,
            h as int,
            stride as int,
            bpp as int,
            px as int,
            py as int,
            color,
        ));
    }
}

/// Stamps the brush `disc` (pixel offsets) centred at (`x`, `y`): each
/// offset's pixel inside the window is inked with `color`, the others are
/// clipped away.
pub fn stamp(
    dst: &mut [u8],
    w: usize,
    h: usize,
    stride: usize,
    bpp: usize,
    x: i32,
    y: i32,
    disc: &[(i32, i32)],
    color: [u8; 4],
)
    requires
        w <= stride,
        buffer_fits(old(dst)@.len() as int, w as int, h as int, stride as int, bpp as int),
    ensures
        final(dst)@ == stamp_spec(
            old(dst)@,
            w as int,
            h as int,
            stride as int,
            bpp as int,
            x as int,
            y as int,
            disc@,
            color,
        ),
{
    let n = disc.len();
    let ghost start = dst@;
    let mut k: usize = 0;
    proof {
        assert(disc@.take(0) =~= Seq::<(i32, i32)>::empty());
    }
    while k < n
        invariant
            n == disc@.len(),
            k <= n,
            w <= stride,
            dst@.len() == start.len(),
            buffer_fits(start.len() as int, w as int, h as int, stride as int, bpp as int),
            dst@ == stamp_spec(
                start,
                w as int,
                h as int,
                stride as int,
                bpp as int,
                x as int,
                y as int,
                disc@.take(k as int),
                color,
            ),
        decreases n - k,
    {
        let (ox, oy) = disc[k];
        ink_one(dst, w, h, stride, bpp, x as i64 + ox as i64, y as i64 + oy as i64, color);
        proof {
            assert(disc@.take(k as int + 1).drop_last() =~= disc@.take(k as int));
        }
        k = k + 1;
    }
    proof {
        assert(disc@.take(n as int) =~= disc@);
    }
}

/// Paints the line from (`x0`, `y0`) to (`x1`, `y1`) with the brush
/// `disc`: the brush is stamped at every pixel of the Bresenham line, from
/// the first end to the last.
pub fn stroke_segment(
    dst: &mut [u8],
    w: usize,
    h: usize,
    stride: usize,
    bpp: usize,
    x0: i32,
    y0: i32,
    x1: i32,
    y1: i32,
    disc: &[(i32, i32)],
    color: [u8; 4],
)
    requires
        w <= stride,
        buffer_fits(old(dst)@.len() as int, w as int, h as int, stride as int, bpp as int),
    ensures
        final(dst)@ == stroke_spec(
            old(dst)@,
            w as int,
            h as int,
            stride as int,
            bpp as int,
            bresenham_points(x0 as int, y0 as int, x1 as int, y1 as int),
            disc@,
            color,
        ),
{
    let pts = bresenham(x0, y0, x1, y1);
    let n = pts.len();
    let ghost start = dst@;
    let mut k: usize = 0;
    proof {
        assert(pts@.take(0) =~= Seq::<(i32, i32)>::empty());
    }
    while k < n
        invariant
            n == pts@.len(),
            k <= n,
            w <= stride,
            dst@.len() == start.len(),
            buffer_fits(start.len() as int, w as int, h as int, stride as int, bpp as int),
            dst@ == stroke_spec(
                start,
                w as int,
                h as int,
                stride as int,
                bpp as int,
                pts@.take(k as int),
                disc@,
                color,
            ),
        decreases n - k,
    {
        let (px, py) = pts[k];
        let ghost prev = dst@;
        stamp(dst, w, h, stride, bpp, px, py, disc, color);
        proof {
            assert(pts@.take(k as int + 1).drop_last() =~= pts@.take(k as int));
            lemma_stamp_len(prev, w as int, h as int, stride as int, bpp as int, px as int, py as int, disc@, color);
        }
        k = k + 1;
    }
    proof {
        assert(pts@.take(n as int) =~= pts@);
    }
}

/// Stamping keeps the buffer's length.
pub proof fn lemma_stamp_len(
    buf: Seq<u8>,
    w: int,
    h: int,
    stride: int,
    bpp: int,
    x: int,
    y: int,
    disc: Seq<(i32, i32)>,
    color: [u8; 4],
)
    ensures
        stamp_spec(buf, w, h, stride, bpp, x, y, disc, color).len() == buf.len(),
    decreases disc.len(),
{
    if disc.len() > 0 {
        lemma_stamp_len(buf, w, h, stride, bpp, x, y, disc.drop_last(), color);
    }
}

/// Offsets `(ox, oy)` of the row `oy` of the disc of radius `r`, for `ox`
/// from `-r` to `-r + n - 1`: those with `ox² + oy² ≤ r²`, left to right.
pub open spec fn disc_row(r: int, oy: int, n: nat) -> Seq<(i32, i32)>
    decreases n,
{
    if n == 0 {
        Seq::empty()
    } else {
        let p = disc_row(r, oy, (n - 1) as nat);
        let ox = -r + n - 1;
        if ox * ox + oy * oy <= r * r {
            p.push((ox as i32, oy as i32))
        } else {
            p
        }
    }
}

/// The first `m` rows of the disc of radius `r` (from `oy = -r` down),
/// each scanned over the full width `2r + 1`.
pub open spec fn disc_rows(r: int, m: nat) -> Seq<(i32, i32)>
    decreases m,
{
    if m == 0 {
        Seq::empty()
    } else {
        disc_rows(r, (m - 1) as nat) + disc_row(r, -r + m - 1, (2 * r + 1) as nat)
    }
}

/// Offsets of the round brush of radius `r`, row by row from `oy = -r`,
/// each row left to right: every `(ox, oy)` with `ox² + oy² ≤ r²`. A
/// radius of at most 1 gives the single centre pixel.
pub open spec fn disc_offsets(r: int) -> Seq<(i32, i32)> {
    if r <= 1 {
        seq![(0i32, 0i32)]
    } else {
        disc_rows(r, (2 * r + 1) as nat)
    }
}

proof fn lemma_row_len_mono(r: int, oy: int, a: nat, b: nat)
    requires
        a <= b,
    ensures
        disc_row(r, oy, a).len() <= disc_row(r, oy, b).len(),
    decreases b,
{
    if a < b {
        lemma_row_len_mono(r, oy, a, (b - 1) as nat);
    }
}

proof fn lemma_rows_len_mono(r: int, a: nat, b: nat)
    requires
        a <= b,
    ensures
        disc_rows(r, a).len() <= disc_rows(r, b).len(),
    decreases b,
{
    if a < b {
        lemma_rows_len_mono(r, a, (b - 1) as nat);
    }
}

/// Writes the round brush of radius `r` into `out` and returns the number
/// of offsets written (see `disc_offsets`); the rest of `out` is left as
/// it was.
pub fn ink_disc(r: i32, out: &mut [(i32, i32)]) -> (k: usize)
    requires
        old(out)@.len() >= disc_offsets(r as int).len(),
    ensures
        k == disc_offsets(r as int).len(),
        final(out)@.len() == old(out)@.len(),
        final(out)@.take(k as int) == disc_offsets(r as int),
        final(out)@.skip(k as int) == old(out)@.skip(k as int),
{
    let len = out.len();
    if r <= 1 {
        out[0] = (0, 0);
        proof {
            assert(out@.take(1) =~= seq![(0i32, 0i32)]);
            assert(out@.skip(1) =~= old(out)@.skip(1));
        }
        return 1;
    }
    let ghost ri = r as int;
    let ghost total = disc_rows(ri, (2 * ri + 1) as nat);
    let rr: i64 = r as i64;
    proof {
        assert(0 <= rr * rr <= 0x4000_0000_0000_0000) by (nonlinear_arith)
            requires
                2 <= rr <= 0x7fff_ffff,
        ;
    }
    let r2: i64 = rr * rr;
    let mut k: usize = 0;
    let mut oy: i64 = -rr;
    while oy <= rr
        invariant
            2 <= ri,
            rr == ri,
            r2 == ri * ri,
            ri <= i32::MAX,
            total == disc_rows(ri, (2 * ri + 1) as nat),
            len == out@.len(),
            len == old(out)@.len(),
            total.len() <= len,
            -ri <= oy <= ri + 1,
            k == disc_rows(ri, (oy + ri) as nat).len(),
            out@.take(k as int) == disc_rows(ri, (oy + ri) as nat),
            forall|i: int| k <= i < len ==> #[trigger] out@[i] == old(out)@[i],
        decreases ri + 1 - oy,
    {
        let ghost m: nat = (oy + ri) as nat;
        let ghost head = disc_rows(ri, m);
        let mut ox: i64 = -rr;
        proof {
            lemma_rows_len_mono(ri, m + 1, (2 * ri + 1) as nat);
            assert(disc_row(ri, oy as int, 0) =~= Seq::<(i32, i32)>::empty());
            assert(head + disc_row(ri, oy as int, 0) =~= head);
        }
        while ox <= rr
            invariant
                2 <= ri,
                rr == ri,
                r2 == ri * ri,
                ri <= i32::MAX,
                -ri <= oy <= ri,
                m == oy + ri,
                head == disc_rows(ri, m),
                disc_rows(ri, m + 1).len() <= len,
                len == out@.len(),
                len == old(out)@.len(),
                -ri <= ox <= ri + 1,
                k == head.len() + disc_row(ri, oy as int, (ox + ri) as nat).len(),
                out@.take(k as int) == head + disc_row(ri, oy as int, (ox + ri) as nat),
                forall|i: int| k <= i < len ==> #[trigger] out@[i] == old(out)@[i],
            decreases ri + 1 - ox,
        {
            let ghost n: nat = (ox + ri) as nat;
            proof {
                assert(0 <= ox * ox <= ri * ri && 0 <= oy * oy <= ri * ri) by (nonlinear_arith)
                    requires
                        -ri <= ox <= ri,
                        -ri <= oy <= ri,
                ;
                assert(ri * ri < 0x4000_0000_0000_0000) by (nonlinear_arith)
                    requires
                        0 <= ri <= 0x7fff_ffff,
                ;
            }
            if ox * ox + oy * oy <= r2 {
                proof {
                    lemma_row_len_mono(ri, oy as int, n + 1, (2 * ri + 1) as nat);
                    assert(disc_rows(ri, m + 1) == head + disc_row(ri, oy as int, (2 * ri + 1) as nat));
                }
                let ghost before = out@;
                out[k] = (ox as i32, oy as i32);
                proof {
                    assert(out@.take(k as int + 1) =~= before.take(k as int).push((ox as i32, oy as i32)));
                    assert(head + disc_row(ri, oy as int, n + 1) =~= (head + disc_row(ri, oy as int, n)).push((ox as i32, oy as i32)));
                }
                k = k + 1;
            } else {
                proof {
                    assert(disc_row(ri, oy as int, n + 1) == disc_row(ri, oy as int, n));
                }
            }
            ox = ox + 1;
        }
        proof {
            assert(disc_rows(ri, m + 1) == head + disc_row(ri, oy as int, (2 * ri + 1) as nat));
        }
        oy = oy + 1;
    }
    proof {
        assert(out@.skip(k as int) =~= old(out)@.skip(k as int));
    }
    k
}

/// Number of offsets of the round brush of radius `r`: how much room
/// `ink_disc` needs.
pub fn disc_len(r: i32) -> (n: u64)
    ensures
        n == disc_offsets(r as int).len(),
{
    if r <= 1 {
        return 1;
    }
    let ghost ri = r as int;
    let rr: i64 = r as i64;
    proof {
        assert(0 <= rr * rr <= 0x4000_0000_0000_0000) by (nonlinear_arith)
            requires
                2 <= rr <= 0x7fff_ffff,
        ;
        lemma_rows_len_bound(ri, (2 * ri + 1) as nat);
        assert((2 * ri + 1) * (2 * ri + 1) < 0x1_0000_0000_0000_0000) by (nonlinear_arith)
            requires
                2 <= ri <= 0x7fff_ffff,
        ;
    }
    let r2: i64 = rr * rr;
    let mut k: u64 = 0;
    let mut oy: i64 = -rr;
    while oy <= rr
        invariant
            2 <= ri,
            rr == ri,
            r2 == ri * ri,
            ri <= i32::MAX,
            -ri <= oy <= ri + 1,
            disc_rows(ri, (2 * ri + 1) as nat).len() <= u64::MAX,
            k == disc_rows(ri, (oy + ri) as nat).len(),
        decreases ri + 1 - oy,
    {
        let ghost m: nat = (oy + ri) as nat;
        let ghost head = disc_rows(ri, m);
        let mut ox: i64 = -rr;
        proof {
            lemma_rows_len_mono(ri, m + 1, (2 * ri + 1) as nat);
            assert(disc_row(ri, oy as int, 0) =~= Seq::<(i32, i32)>::empty());
        }
        while ox <= rr
            invariant
                2 <= ri,
                rr == ri,
                r2 == ri * ri,
                ri <= i32::MAX,
                -ri <= oy <= ri,
                m == oy + ri,
                head == disc_rows(ri, m),
                disc_rows(ri, m + 1).len() <= u64::MAX,
                -ri <= ox <= ri + 1,
                k == head.len() + disc_row(ri, oy as int, (ox + ri) as nat).len(),
            decreases ri + 1 - ox,
        {
            let ghost n: nat = (ox + ri) as nat;
            proof {
                assert(0 <= ox * ox <= ri * ri && 0 <= oy * oy <= ri * ri) by (nonlinear_arith)
                    requires
                        -ri <= ox <= ri,
                        -ri <= oy <= ri,
                ;
                assert(ri * ri < 0x4000_0000_0000_0000) by (nonlinear_arith)
                    requires
                        0 <= ri <= 0x7fff_ffff,
                ;
            }
            if ox * ox + oy * oy <= r2 {
                proof {
                    lemma_row_len_mono(ri, oy as int, n + 1, (2 * ri + 1) as nat);
                    assert(disc_rows(ri, m + 1) == head + disc_row(ri, oy as int, (2 * ri + 1) as nat));
                }
                k = k + 1;
            }
            ox = ox + 1;
        }
        proof {
            assert(disc_rows(ri, m + 1) == head + disc_row(ri, oy as int, (2 * ri + 1) as nat));
        }
        oy = oy + 1;
    }
    k
}

proof fn lemma_row_len_bound(r: int, oy: int, n: nat)
    ensures
        disc_row(r, oy, n).len() <= n,
    decreases n,
{
    if n > 0 {
        lemma_row_len_bound(r, oy, (n - 1) as nat);
    }
}

proof fn lemma_rows_len_bound(r: int, m: nat)
    requires
        r >= 0,
    ensures
        disc_rows(r, m).len() <= m * (2 * r + 1),
    decreases m,
{
    if m > 0 {
        lemma_rows_len_bound(r, (m - 1) as nat);
        lemma_row_len_bound(r, -r + m - 1, (2 * r + 1) as nat);
        assert((m - 1) * (2 * r + 1) + (2 * r + 1) == m * (2 * r + 1)) by (nonlinear_arith);
    }
}

/// Radius of a brush: the offsets come row by row from `oy = -r`, so the
/// first one lies on the top row; an empty brush has radius 0.
pub fn disc_r(disc: &[(i32, i32)]) -> (r: i32)
    requires
        disc@.len() > 0 ==> disc@[0].1 != i32::MIN,
    ensures
        r == if disc@.len() == 0 {
            0
        } else {
            -disc@[0].1
        },
{
    if disc.len() == 0 {
        0
    } else {
        let (_, oy) = disc[0];
        -oy
    }
}

/// Bresenham's line is connected and joins its ends: it starts at
/// (`x0`, `y0`), ends at (`x1`, `y1`), and each pixel is one king move
/// from the previous one, never moving away from the target on either axis.
pub proof fn law_bresenham_joins_ends(x0: i32, y0: i32, x1: i32, y1: i32)
    ensures
        ({
            let s = bresenham_points(x0 as int, y0 as int, x1 as int, y1 as int);
            &&& s.len() >= 1
            &&& s[0] == (x0, y0)
            &&& s.last() == (x1, y1)
            &&& forall|k: int|
                #![trigger s[k]]
                0 <= k < s.len() - 1 ==> {
                    let dxk = s[k + 1].0 - s[k].0;
                    let dyk = s[k + 1].1 - s[k].1;
                    &&& (dxk == 0 || dxk == step_dir(x0 as int, x1 as int))
                    &&& (dyk == 0 || dyk == step_dir(y0 as int, y1 as int))
                    &&& (dxk != 0 || dyk != 0)
                }
        }),
{
    let adx = iabs(x1 - x0);
    let ady = iabs(y1 - y0);
    let sx = step_dir(x0 as int, x1 as int);
    let sy = step_dir(y0 as int, y1 as int);
    assert((x0 - x0) * sx == 0 && (y0 - y0) * sy == 0) by (nonlinear_arith);
    assert(adx * (0 + 1) - ady * (0 + 1) == adx - ady) by (nonlinear_arith);
    assert(bres_inv(x0 as int, y0 as int, adx - ady, x0 as int, y0 as int, x1 as int, y1 as int));
    lemma_bres_walk(
        x0 as int,
        y0 as int,
        adx - ady,
        x0 as int,
        y0 as int,
        x1 as int,
        y1 as int,
        (adx + ady + 1) as nat,
    );
}

proof fn lemma_row_contains(r: int, oy: int, n: nat, a: i32, b: i32)
    requires
        2 <= r <= i32::MAX,
        -r <= oy <= r,
        n <= 2 * r + 1,
    ensures
        disc_row(r, oy, n).contains((a, b)) <==> (b == oy && -r <= a < -r + n && a * a + b * b
            <= r * r),
    decreases n,
{
    if n > 0 {
        let p = disc_row(r, oy, (n - 1) as nat);
        lemma_row_contains(r, oy, (n - 1) as nat, a, b);
        let ox = -r + n - 1;
        if ox * ox + oy * oy <= r * r {
            assert(p.push((ox as i32, oy as i32)).contains((a, b)) <==> (p.contains((a, b)) || (
            ox as i32, oy as i32) == (a, b))) by {
                let q = p.push((ox as i32, oy as i32));
                if q.contains((a, b)) {
                    let j = choose|j: int| 0 <= j < q.len() && q[j] == (a, b);
                    if j < p.len() {
                        assert(p[j] == q[j]);
                    }
                }
                if p.contains((a, b)) {
                    let j = choose|j: int| 0 <= j < p.len() && p[j] == (a, b);
                    assert(q[j] == p[j]);
                }
                if (ox as i32, oy as i32) == (a, b) {
                    assert(q[p.len() as int] == (a, b));
                }
            }
        }
    }
}

proof fn lemma_rows_contains(r: int, m: nat, a: i32, b: i32)
    requires
        2 <= r <= i32::MAX,
        m <= 2 * r + 1,
    ensures
        disc_rows(r, m).contains((a, b)) <==> (-r <= b < -r + m && a * a + b * b <= r * r),
    decreases m,
{
    if m > 0 {
        let p = disc_rows(r, (m - 1) as nat);
        let oy = -r + m - 1;
        let row = disc_row(r, oy, (2 * r + 1) as nat);
        lemma_rows_contains(r, (m - 1) as nat, a, b);
        lemma_row_contains(r, oy, (2 * r + 1) as nat, a, b);
        assert((p + row).contains((a, b)) <==> (p.contains((a, b)) || row.contains((a, b)))) by {
            let q = p + row;
            if q.contains((a, b)) {
                let j = choose|j: int| 0 <= j < q.len() && q[j] == (a, b);
                if j < p.len() {
                    assert(p[j] == q[j]);
                } else {
                    assert(row[j - p.len()] == q[j]);
                }
            }
            if p.contains((a, b)) {
                let j = choose|j: int| 0 <= j < p.len() && p[j] == (a, b);
                assert(q[j] == p[j]);
            }
            if row.contains((a, b)) {
                let j = choose|j: int| 0 <= j < row.len() && row[j] == (a, b);
                assert(q[j + p.len()] == row[j]);
            }
        }
        if b == oy && a * a + b * b <= r * r {
            assert(-r <= a <= r) by (nonlinear_arith)
                requires
                    a * a + b * b <= r * r,
                    r >= 0,
            ;
        }
    }
}

/// The brush of radius `r ≥ 2` is round: it holds exactly the offsets
/// `(a, b)` with `a² + b² ≤ r²`.
pub proof fn law_disc_is_round(r: i32, a: i32, b: i32)
    requires
        r >= 2,
    ensures
        disc_offsets(r as int).contains((a, b)) <==> a * a + b * b <= r * r,
{
    lemma_rows_contains(r as int, (2 * r + 1) as nat, a, b);
    if a * a + b * b <= r * r {
        assert(-r <= b <= r) by (nonlinear_arith)
            requires
                a * a + b * b <= r * r,
                r >= 0,
        ;
    }
}

proof fn lemma_top_row_first(r: int, n: nat)
    requires
        2 <= r <= i32::MAX,
        r + 1 <= n <= 2 * r + 1,
    ensures
        disc_row(r, -r, n).len() >= 1,
        disc_row(r, -r, n)[0] == (0i32, (-r) as i32),
    decreases n,
{
    if n == r + 1 {
        lemma_top_row_empty(r, r as nat);
        assert(0 * 0 + (-r) * (-r) <= r * r) by (nonlinear_arith);
    } else {
        lemma_top_row_first(r, (n - 1) as nat);
    }
}

proof fn lemma_top_row_empty(r: int, n: nat)
    requires
        2 <= r,
        n <= r,
    ensures
        disc_row(r, -r, n).len() == 0,
    decreases n,
{
    if n > 0 {
        lemma_top_row_empty(r, (n - 1) as nat);
        let ox = -r + n - 1;
        assert(ox * ox + (-r) * (-r) > r * r) by (nonlinear_arith)
            requires
                ox < 0,
        ;
    }
}

proof fn lemma_rows_first(r: int, m: nat)
    requires
        2 <= r <= i32::MAX,
        1 <= m <= 2 * r + 1,
    ensures
        disc_rows(r, m).len() >= 1,
        disc_rows(r, m)[0] == (0i32, (-r) as i32),
    decreases m,
{
    if m == 1 {
        lemma_top_row_first(r, (2 * r + 1) as nat);
        assert(disc_rows(r, 0) =~= Seq::<(i32, i32)>::empty());
        assert(disc_rows(r, 1) =~= disc_row(r, -r, (2 * r + 1) as nat));
    } else {
        lemma_rows_first(r, (m - 1) as nat);
    }
}

/// The radius read back from a brush is the radius it was built with: the
/// first offset of the brush of radius `r ≥ 2` lies on the top row
/// `oy = -r` (the single pixel of smaller brushes reads as 0).
pub proof fn law_disc_radius_round_trip(r: i32)
    ensures
        disc_offsets(r as int).len() >= 1,
        r >= 2 ==> disc_offsets(r as int)[0].1 == -r,
        r <= 1 ==> disc_offsets(r as int)[0].1 == 0,
{
    if r >= 2 {
        lemma_rows_first(r as int, (2 * r + 1) as nat);
    }
}

/// Byte `i` is one of the `bpp` bytes of pixel (`px`, `py`) of the
/// `w × h` window.
pub open spec fn byte_of_pixel(
    i: int,
    w: int,
    h: int,
    stride: int,
    bpp: int,
    px: int,
    py: int,
) -> bool {
    &&& 0 <= px < w
    &&& 0 <= py < h
    &&& pixel_base(px, py, stride, bpp) <= i < pixel_base(px, py, stride, bpp) + bpp
}

/// Byte `i` belongs to no in-window pixel under the brush `disc` at
/// (`x`, `y`).
pub open spec fn off_brush(
    i: int,
    w: int,
    h: int,
    stride: int,
    bpp: int,
    x: int,
    y: int,
    disc: Seq<(i32, i32)>,
) -> bool {
    forall|k: int|
        0 <= k < disc.len() ==> !byte_of_pixel(
            i,
            w,
            h,
            stride,
            bpp,
            x + (#[trigger] disc[k]).0,
            y + disc[k].1,
        )
}

/// Stamping the brush changes no byte outside the in-window pixels under
/// it.
pub proof fn law_stamp_touches_only_brush(
    buf: Seq<u8>,
    w: int,
    h: int,
    stride: int,
    bpp: int,
    x: int,
    y: int,
    disc: Seq<(i32, i32)>,
    color: [u8; 4],
    i: int,
)
    requires
        0 <= i < buf.len(),
        off_brush(i, w, h, stride, bpp, x, y, disc),
    ensures
        stamp_spec(buf, w, h, stride, bpp, x, y, disc, color)[i] == buf[i],
    decreases disc.len(),
{
    if disc.len() > 0 {
        let d = disc.drop_last();
        assert forall|k: int| 0 <= k < d.len() implies !byte_of_pixel(
            i,
            w,
            h,
            stride,
            bpp,
            x + (#[trigger] d[k]).0,
            y + d[k].1,
        ) by {
            assert(d[k] == disc[k]);
        }
        law_stamp_touches_only_brush(buf, w, h, stride, bpp, x, y, d, color, i);
        lemma_stamp_len(buf, w, h, stride, bpp, x, y, d, color);
        assert(!byte_of_pixel(i, w, h, stride, bpp, x + disc[disc.len() - 1].0, y + disc[disc.len() - 1].1));
    }
}

/// Painting a line changes no byte outside the in-window pixels under the
/// brush at some point of the line.
pub proof fn law_stroke_touches_only_brush(
    buf: Seq<u8>,
    w: int,
    h: int,
    stride: int,
    bpp: int,
    pts: Seq<(i32, i32)>,
    disc: Seq<(i32, i32)>,
    color: [u8; 4],
    i: int,
)
    requires
        0 <= i < buf.len(),
        forall|j: int|
            0 <= j < pts.len() ==> off_brush(
                i,
                w,
                h,
                stride,
                bpp,
                (#[trigger] pts[j]).0 as int,
                pts[j].1 as int,
                disc,
            ),
    ensures
        stroke_spec(buf, w, h, stride, bpp, pts, disc, color)[i] == buf[i],
    decreases pts.len(),
{
    if pts.len() > 0 {
        let d = pts.drop_last();
        assert forall|j: int| 0 <= j < d.len() implies off_brush(
            i,
            w,
            h,
            stride,
            bpp,
            (#[trigger] d[j]).0 as int,
            d[j].1 as int,
            disc,
        ) by {
            assert(d[j] == pts[j]);
        }
        law_stroke_touches_only_brush(buf, w, h, stride, bpp, d, disc, color, i);
        lemma_stroke_len(buf, w, h, stride, bpp, d, disc, color);
        let last = pts[pts.len() - 1];
        assert(off_brush(i, w, h, stride, bpp, last.0 as int, last.1 as int, disc));
        law_stamp_touches_only_brush(
            stroke_spec(buf, w, h, stride, bpp, d, disc, color),
            w,
            h,
            stride,
            bpp,
            last.0 as int,
            last.1 as int,
            disc,
            color,
            i,
        );
    }
}

/// Painting a line keeps the buffer's length.
pub proof fn lemma_stroke_len(
    buf: Seq<u8>,
    w: int,
    h: int,
    stride: int,
    bpp: int,
    pts: Seq<(i32, i32)>,
    disc: Seq<(i32, i32)>,
    color: [u8; 4],
)
    ensures
        stroke_spec(buf, w, h, stride, bpp, pts, disc, color).len() == buf.len(),
    decreases pts.len(),
{
    if pts.len() > 0 {
        lemma_stroke_len(buf, w, h, stride, bpp, pts.drop_last(), disc, color);
        let last = pts.last();
        lemma_stamp_len(
            stroke_spec(buf, w, h, stride, bpp, pts.drop_last(), disc, color),
            w,
            h,
            stride,
            bpp,
            last.0 as int,
            last.1 as int,
            disc,
            color,
        );
    }
}

/// Two bytes of the same channel range of in-window pixels coincide only
/// for the same pixel.
proof fn lemma_pixel_bytes_disjoint(
    x: int,
    y: int,
    x2: int,
    y2: int,
    w: int,
    stride: int,
    bpp: int,
    c: int,
)
    requires
        0 <= x < w,
        0 <= x2 < w,
        0 <= y,
        0 <= y2,
        w <= stride,
        bpp > 0,
        0 <= c < bpp,
        pixel_base(x2, y2, stride, bpp) <= pixel_base(x, y, stride, bpp) + c < pixel_base(
            x2,
            y2,
            stride,
            bpp,
        ) + bpp,
    ensures
        x == x2 && y == y2,
{
    let i = pixel_base(x, y, stride, bpp) + c;
    assert(0 <= y * stride + x) by (nonlinear_arith)
        requires
            0 <= x,
            0 <= y,
            stride >= 0,
    ;
    assert(0 <= pixel_base(x, y, stride, bpp)) by (nonlinear_arith)
        requires
            0 <= y * stride + x,
            bpp > 0,
    ;
    lemma_pixel_iff(i, x, y, stride, bpp, bpp);
    lemma_pixel_iff(i, x2, y2, stride, bpp, bpp);
}

/// Opaque ink on four-byte pixels paints the brush: after stamping, every
/// in-window pixel under the brush holds the ink's color channels.
pub proof fn law_opaque_stamp_paints_brush(
    buf: Seq<u8>,
    w: int,
    h: int,
    stride: int,
    x: int,
    y: int,
    disc: Seq<(i32, i32)>,
    color: [u8; 4],
    k: int,
    c: int,
)
    requires
        color@[3] == 255,
        w <= stride,
        buffer_fits(buf.len() as int, w, h, stride, 4),
        0 <= k < disc.len(),
        0 <= x + disc[k].0 < w,
        0 <= y + disc[k].1 < h,
        0 <= c < 3,
    ensures
        stamp_spec(buf, w, h, stride, 4, x, y, disc, color)[pixel_base(
            x + disc[k].0,
            y + disc[k].1,
            stride,
            4,
        ) + c] == color@[c],
    decreases disc.len(),
{
    let px = x + disc[k].0;
    let py = y + disc[k].1;
    let b = pixel_base(px, py, stride, 4);
    let d = disc.drop_last();
    let prev = stamp_spec(buf, w, h, stride, 4, x, y, d, color);
    let last = disc[disc.len() - 1];
    let lx = x + last.0;
    let ly = y + last.1;
    lemma_stamp_len(buf, w, h, stride, 4, x, y, d, color);
    lemma_pixel_in_buffer(px, py, w, h, stride, 4, buf.len() as int);
    if k < disc.len() - 1 {
        assert(d[k] == disc[k]);
        law_opaque_stamp_paints_brush(buf, w, h, stride, x, y, d, color, k, c);
        if 0 <= lx < w && 0 <= ly < h {
            let lb = pixel_base(lx, ly, stride, 4);
            if lb <= b + c < lb + 3 {
                lemma_pixel_bytes_disjoint(px, py, lx, ly, w, stride, 4, c);
            }
        }
    }
}


/// Ink on four-byte pixels blends source-over by its alpha `a`: where
/// exactly one offset of the brush lands on in-window pixel `P`, stamping
/// leaves `P` unchanged for `a == 0`, writes the ink's color channels for
/// `a == 255`, and otherwise sets each color channel to
/// `(c·a + d·(255 − a)) / 255` (`c` the ink's, `d` the pixel's before);
/// the pixel's alpha byte is never written.
pub proof fn law_stamp_blends_ink(
    buf: Seq<u8>,
    w: int,
    h: int,
    stride: int,
    x: int,
    y: int,
    disc: Seq<(i32, i32)>,
    color: [u8; 4],
    k: int,
    ch: int,
)
    requires
        w <= stride,
        buffer_fits(buf.len() as int, w, h, stride, 4),
        0 <= k < disc.len(),
        0 <= x + disc[k].0 < w,
        0 <= y + disc[k].1 < h,
        forall|j: int|
            0 <= j < disc.len() && j != k ==> !(x + (#[trigger] disc[j]).0 == x + disc[k].0 && y
                + disc[j].1 == y + disc[k].1),
        0 <= ch < 4,
    ensures
        ({
            let b = pixel_base(x + disc[k].0, y + disc[k].1, stride, 4) + ch;
            let r = stamp_spec(buf, w, h, stride, 4, x, y, disc, color);
            let a = color@[3] as int;
            &&& ch == 3 ==> r[b] == buf[b]
            &&& a == 0 ==> r[b] == buf[b]
            &&& a == 255 && ch < 3 ==> r[b] == color@[ch]
            &&& 0 < a < 255 && ch < 3 ==> r[b] as int == (color@[ch] as int * a + buf[b] as int * (
            255 - a)) / 255
        }),
    decreases disc.len(),
{
    let px = x + disc[k].0;
    let py = y + disc[k].1;
    let b = pixel_base(px, py, stride, 4) + ch;
    let d = disc.drop_last();
    let last = disc.len() - 1;
    let prev = stamp_spec(buf, w, h, stride, 4, x, y, d, color);
    let lx = x + disc[last].0;
    let ly = y + disc[last].1;
    lemma_stamp_len(buf, w, h, stride, 4, x, y, d, color);
    lemma_pixel_in_buffer(px, py, w, h, stride, 4, buf.len() as int);
    let a = color@[3] as int;
    let cv = color@[ch] as int;
    let dv = buf[b] as int;
    assert(0 <= cv * a + dv * (255 - a) <= 255 * 255) by (nonlinear_arith)
        requires
            0 <= cv <= 255,
            0 <= dv <= 255,
            0 <= a <= 255,
    ;
    if k == last {
        assert forall|j: int| 0 <= j < d.len() implies !byte_of_pixel(
            b,
            w,
            h,
            stride,
            4,
            x + (#[trigger] d[j]).0,
            y + d[j].1,
        ) by {
            assert(d[j] == disc[j]);
            let qx = x + d[j].0;
            let qy = y + d[j].1;
            if byte_of_pixel(b, w, h, stride, 4, qx, qy) {
                lemma_pixel_bytes_disjoint(px, py, qx, qy, w, stride, 4, ch);
            }
        }
        law_stamp_touches_only_brush(buf, w, h, stride, 4, x, y, d, color, b);
    } else {
        assert(d[k] == disc[k]);
        assert forall|j: int| 0 <= j < d.len() && j != k implies !(x + (#[trigger] d[j]).0 == x
            + d[k].0 && y + d[j].1 == y + d[k].1) by {
            assert(d[j] == disc[j]);
        }
        law_stamp_blends_ink(buf, w, h, stride, x, y, d, color, k, ch);
        if 0 <= lx < w && 0 <= ly < h {
            let lb = pixel_base(lx, ly, stride, 4);
            if lb <= b < lb + ink_count(color, 4) {
                lemma_pixel_bytes_disjoint(px, py, lx, ly, w, stride, 4, ch);
            }
        }
    }
}

/// Ink on two-byte pixels is opaque RGB565: where exactly one offset of
/// the brush lands on in-window pixel `P`, stamping writes the ink's RGB565
/// value into `P`, low byte first, whatever the ink's alpha.
pub proof fn law_stamp_rgb565(
    buf: Seq<u8>,
    w: int,
    h: int,
    stride: int,
    x: int,
    y: int,
    disc: Seq<(i32, i32)>,
    color: [u8; 4],
    k: int,
    ch: int,
)
    requires
        w <= stride,
        buffer_fits(buf.len() as int, w, h, stride, 2),
        0 <= k < disc.len(),
        0 <= x + disc[k].0 < w,
        0 <= y + disc[k].1 < h,
        forall|j: int|
            0 <= j < disc.len() && j != k ==> !(x + (#[trigger] disc[j]).0 == x + disc[k].0 && y
                + disc[j].1 == y + disc[k].1),
        0 <= ch < 2,
    ensures
        ({
            let b = pixel_base(x + disc[k].0, y + disc[k].1, stride, 2) + ch;
            let r = stamp_spec(buf, w, h, stride, 2, x, y, disc, color);
            let v = rgb565_spec(color@[0], color@[1], color@[2]) as int;
            &&& ch == 0 ==> r[b] as int == v % 256
            &&& ch == 1 ==> r[b] as int == v / 256
        }),
    decreases disc.len(),
{
    let px = x + disc[k].0;
    let py = y + disc[k].1;
    let b = pixel_base(px, py, stride, 2) + ch;
    let d = disc.drop_last();
    let last = disc.len() - 1;
    let prev = stamp_spec(buf, w, h, stride, 2, x, y, d, color);
    let lx = x + disc[last].0;
    let ly = y + disc[last].1;
    lemma_stamp_len(buf, w, h, stride, 2, x, y, d, color);
    lemma_pixel_in_buffer(px, py, w, h, stride, 2, buf.len() as int);
    let v = rgb565_spec(color@[0], color@[1], color@[2]) as int;
    assert(0 <= v < 0x10000);
    if k == last {
        assert forall|j: int| 0 <= j < d.len() implies !byte_of_pixel(
            b,
            w,
            h,
            stride,
            2,
            x + (#[trigger] d[j]).0,
            y + d[j].1,
        ) by {
            assert(d[j] == disc[j]);
            let qx = x + d[j].0;
            let qy = y + d[j].1;
            if byte_of_pixel(b, w, h, stride, 2, qx, qy) {
                lemma_pixel_bytes_disjoint(px, py, qx, qy, w, stride, 2, ch);
            }
        }
        law_stamp_touches_only_brush(buf, w, h, stride, 2, x, y, d, color, b);
    } else {
        assert(d[k] == disc[k]);
        assert forall|j: int| 0 <= j < d.len() && j != k implies !(x + (#[trigger] d[j]).0 == x
            + d[k].0 && y + d[j].1 == y + d[k].1) by {
            assert(d[j] == disc[j]);
        }
        law_stamp_rgb565(buf, w, h, stride, x, y, d, color, k, ch);
        if 0 <= lx < w && 0 <= ly < h {
            let lb = pixel_base(lx, ly, stride, 2);
            if lb <= b < lb + ink_count(color, 2) {
                lemma_pixel_bytes_disjoint(px, py, lx, ly, w, stride, 2, ch);
            }
        }
    }
}


/// Offsets in row-major order: by row, then by column, none twice.
pub open spec fn row_major(s: Seq<(i32, i32)>) -> bool {
    forall|i: int, j: int|
        0 <= i < j < s.len() ==> (#[trigger] s[i]).1 < (#[trigger] s[j]).1 || (s[i].1 == s[j].1
            && s[i].0 < s[j].0)
}

proof fn lemma_row_sorted(r: int, oy: int, n: nat)
    requires
        2 <= r <= i32::MAX,
        -r <= oy <= r,
        n <= 2 * r + 1,
    ensures
        ({
            let row = disc_row(r, oy, n);
            &&& forall|k: int|
                0 <= k < row.len() ==> (#[trigger] row[k]).1 == oy && -r <= row[k].0 < -r + n
            &&& row_major(row)
        }),
    decreases n,
{
    if n > 0 {
        lemma_row_sorted(r, oy, (n - 1) as nat);
    }
}

proof fn lemma_rows_sorted(r: int, m: nat)
    requires
        2 <= r <= i32::MAX,
        m <= 2 * r + 1,
    ensures
        ({
            let rows = disc_rows(r, m);
            &&& forall|k: int| 0 <= k < rows.len() ==> -r <= (#[trigger] rows[k]).1 < -r + m
            &&& row_major(rows)
        }),
    decreases m,
{
    if m > 0 {
        lemma_rows_sorted(r, (m - 1) as nat);
        let p = disc_rows(r, (m - 1) as nat);
        let oy = -r + m - 1;
        let row = disc_row(r, oy, (2 * r + 1) as nat);
        lemma_row_sorted(r, oy, (2 * r + 1) as nat);
        let rows = p + row;
        assert forall|k: int| 0 <= k < rows.len() implies -r <= (#[trigger] rows[k]).1 < -r + m by {
            if k < p.len() {
                assert(rows[k] == p[k]);
            } else {
                assert(rows[k] == row[k - p.len()]);
            }
        }
        assert forall|i: int, j: int| 0 <= i < j < rows.len() implies (#[trigger] rows[i]).1 < (
        #[trigger] rows[j]).1 || (rows[i].1 == rows[j].1 && rows[i].0 < rows[j].0) by {
            if j < p.len() {
                assert(rows[i] == p[i] && rows[j] == p[j]);
            } else if i < p.len() {
                assert(rows[i] == p[i] && rows[j] == row[j - p.len()]);
            } else {
                assert(rows[i] == row[i - p.len()] && rows[j] == row[j - p.len()]);
            }
        }
    }
}

/// The brush comes row by row from the top: offsets ordered by row, then
/// by column, none repeated (with `law_disc_is_round` this fixes the
/// brush).
pub proof fn law_disc_row_major(r: i32)
    ensures
        row_major(disc_offsets(r as int)),
{
    if r >= 2 {
        lemma_rows_sorted(r as int, (2 * r + 1) as nat);
    }
}


/// Twice the signed distance, scaled by the line's length, of pixel
/// (`px`, `py`) from the ideal line from (`x0`, `y0`) to (`x1`, `y1`),
/// measured across the line: `2·(adx·ty − ady·tx)` for the steps `tx`,
/// `ty` taken along each axis.
pub open spec fn line_deviation(px: int, py: int, x0: int, y0: int, x1: int, y1: int) -> int {
    let tx = (px - x0) * step_dir(x0, x1);
    let ty = (py - y0) * step_dir(y0, y1);
    2 * (iabs(x1 - x0) * ty - iabs(y1 - y0) * tx)
}

/// Larger of the two axis distances of the line.
pub open spec fn major_len(x0: int, y0: int, x1: int, y1: int) -> int {
    if iabs(x1 - x0) >= iabs(y1 - y0) {
        iabs(x1 - x0)
    } else {
        iabs(y1 - y0)
    }
}

proof fn lemma_bres_close(x: int, y: int, err: int, x0: int, y0: int, x1: int, y1: int, fuel: nat)
    requires
        bres_inv(x, y, err, x0, y0, x1, y1),
        iabs(line_deviation(x, y, x0, y0, x1, y1)) <= major_len(x0, y0, x1, y1),
        fuel >= bres_left(x, y, x0, y0, x1, y1) + 1,
        i32::MIN <= x0 <= i32::MAX,
        i32::MIN <= y0 <= i32::MAX,
        i32::MIN <= x1 <= i32::MAX,
        i32::MIN <= y1 <= i32::MAX,
    ensures
        ({
            let s = bres_walk(
                x,
                y,
                err,
                x1,
                y1,
                iabs(x1 - x0),
                iabs(y1 - y0),
                step_dir(x0, x1),
                step_dir(y0, y1),
                fuel,
            );
            let adx = iabs(x1 - x0);
            let ady = iabs(y1 - y0);
            &&& forall|k: int|
                0 <= k < s.len() ==> iabs(
                    line_deviation((#[trigger] s[k]).0 as int, s[k].1 as int, x0, y0, x1, y1),
                ) <= major_len(x0, y0, x1, y1)
            &&& adx >= ady ==> s.len() == adx - (x - x0) * step_dir(x0, x1) + 1
            &&& adx < ady ==> s.len() == ady - (y - y0) * step_dir(y0, y1) + 1
        }),
    decreases fuel,
{
    let adx = iabs(x1 - x0);
    let ady = iabs(y1 - y0);
    let sx = step_dir(x0, x1);
    let sy = step_dir(y0, y1);
    let tx = (x - x0) * sx;
    let ty = (y - y0) * sy;
    let m = major_len(x0, y0, x1, y1);
    lemma_bres_in_range(x, y, err, x0, y0, x1, y1);
    let s = bres_walk(x, y, err, x1, y1, adx, ady, sx, sy, fuel);
    assert(x1 == x0 + sx * adx) by {
        if x0 < x1 {
        } else {
        }
    }
    assert(y1 == y0 + sy * ady) by {
        if y0 < y1 {
        } else {
        }
    }
    if x == x1 && y == y1 {
        assert(tx == adx && ty == ady) by (nonlinear_arith)
            requires
                tx == (x - x0) * sx,
                ty == (y - y0) * sy,
                x == x0 + sx * adx,
                y == y0 + sy * ady,
                sx == 1 || sx == -1,
                sy == 1 || sy == -1,
        ;
        assert(s[0] == (x as i32, y as i32));
    } else {
        let e2 = 2 * err;
        let x2 = if e2 >= -ady {
            x + sx
        } else {
            x
        };
        let err2 = if e2 >= -ady {
            err - ady
        } else {
            err
        };
        let y2 = if e2 <= adx {
            y + sy
        } else {
            y
        };
        let err3 = if e2 <= adx {
            err2 + adx
        } else {
            err2
        };
        lemma_bres_step(x, y, err, x0, y0, x1, y1);
        let tx2 = (x2 - x0) * sx;
        let ty2 = (y2 - y0) * sy;
        assert(tx2 == if e2 >= -ady { tx + 1 } else { tx }) by (nonlinear_arith)
            requires
                tx == (x - x0) * sx,
                tx2 == (x2 - x0) * sx,
                x2 == if e2 >= -ady { x + sx } else { x },
                sx == 1 || sx == -1,
        ;
        assert(ty2 == if e2 <= adx { ty + 1 } else { ty }) by (nonlinear_arith)
            requires
                ty == (y - y0) * sy,
                ty2 == (y2 - y0) * sy,
                y2 == if e2 <= adx { y + sy } else { y },
                sy == 1 || sy == -1,
        ;
        let d = adx * ty - ady * tx;
        let d2 = adx * ty2 - ady * tx2;
        assert(err == d + adx - ady) by (nonlinear_arith)
            requires
                err == adx * (ty + 1) - ady * (tx + 1),
                d == adx * ty - ady * tx,
        ;
        assert(d2 == d + (if e2 <= adx { adx } else { 0 }) - (if e2 >= -ady { ady } else { 0 }))
            by (nonlinear_arith)
            requires
                d == adx * ty - ady * tx,
                d2 == adx * ty2 - ady * tx2,
                tx2 == if e2 >= -ady { tx + 1 } else { tx },
                ty2 == if e2 <= adx { ty + 1 } else { ty },
        ;
        assert(line_deviation(x, y, x0, y0, x1, y1) == 2 * d);
        assert(line_deviation(x2, y2, x0, y0, x1, y1) == 2 * d2);
        assert(iabs(2 * d2) <= m);
        if adx >= ady {
            assert(e2 >= -ady);
        } else {
            assert(e2 <= adx);
        }
        lemma_bres_close(x2, y2, err3, x0, y0, x1, y1, (fuel - 1) as nat);
        let t = bres_walk(x2, y2, err3, x1, y1, adx, ady, sx, sy, (fuel - 1) as nat);
        assert(s == seq![(x as i32, y as i32)] + t);
        assert forall|k: int| 0 <= k < s.len() implies iabs(
            line_deviation((#[trigger] s[k]).0 as int, s[k].1 as int, x0, y0, x1, y1),
        ) <= m by {
            if k > 0 {
                assert(s[k] == t[k - 1]);
            }
        }
    }
}

/// Bresenham's line is the best pixel line: each of its pixels lies within
/// half a pixel of the ideal line, across the line (`|line_deviation| ≤
/// major_len`), and it steps once per pixel along the major axis, so it
/// has `max(|x1 − x0|, |y1 − y0|) + 1` pixels.
pub proof fn law_bresenham_hugs_the_line(x0: i32, y0: i32, x1: i32, y1: i32)
    ensures
        ({
            let s = bresenham_points(x0 as int, y0 as int, x1 as int, y1 as int);
            &&& s.len() == major_len(x0 as int, y0 as int, x1 as int, y1 as int) + 1
            &&& forall|k: int|
                0 <= k < s.len() ==> iabs(
                    line_deviation(
                        (#[trigger] s[k]).0 as int,
                        s[k].1 as int,
                        x0 as int,
                        y0 as int,
                        x1 as int,
                        y1 as int,
                    ),
                ) <= major_len(x0 as int, y0 as int, x1 as int, y1 as int)
        }),
{
    let adx = iabs(x1 - x0);
    let ady = iabs(y1 - y0);
    let sx = step_dir(x0 as int, x1 as int);
    let sy = step_dir(y0 as int, y1 as int);
    assert((x0 - x0) * sx == 0 && (y0 - y0) * sy == 0) by (nonlinear_arith);
    assert(adx * (0 + 1) - ady * (0 + 1) == adx - ady) by (nonlinear_arith);
    assert(bres_inv(x0 as int, y0 as int, adx - ady, x0 as int, y0 as int, x1 as int, y1 as int));
    assert(line_deviation(x0 as int, y0 as int, x0 as int, y0 as int, x1 as int, y1 as int) == 0)
        by (nonlinear_arith)
        requires
            (x0 - x0) * sx == 0,
            (y0 - y0) * sy == 0,
    {
    }
    lemma_bres_close(
        x0 as int,
        y0 as int,
        adx - ady,
        x0 as int,
        y0 as int,
        x1 as int,
        y1 as int,
        (adx + ady + 1) as nat,
    );
}

} // verus!
