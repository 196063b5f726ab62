//! RGBA8 bitmap handed around by the renderer: `width × height` pixels,
//! four bytes per pixel, rows packed without padding.

use vstd::prelude::*;

verus! {

/// RGBA8 bitmap (`data` holds `width * height * 4` bytes when well formed).
pub struct Bitmap {
    pub width: u32,
    pub height: u32,
    pub data: Vec<u8>,
}

impl Bitmap {
    /// The pixel buffer has exactly `width * height * 4` bytes.
    pub open spec fn well_formed(&self) -> bool {
        self.data@.len() == self.width as nat * self.height as nat * 4
    }
}

/// Byte `c` of the RGBA8 encoding of an ARGB pixel `p` (as Android's
/// `Bitmap.getPixels` returns it): red, green, blue, then alpha.
pub open spec fn argb_byte(p: i32, c: int) -> u8 {
    let v = p as u32;
    if c == 0 {
        ((v / 0x1_0000) % 0x100) as u8
    } else if c == 1 {
        ((v / 0x100) % 0x100) as u8
    } else if c == 2 {
        (v % 0x100) as u8
    } else {
        (v / 0x100_0000) as u8
    }
}

/// RGBA8 bytes of ARGB pixels, four per pixel, in order.
pub fn argb_to_rgba(px: &[i32]) -> (data: Vec<u8>)
    requires
        px@.len() * 4 <= usize::MAX,
    ensures
        data@.len() == px@.len() * 4,
        forall|i: int| 0 <= i < data@.len() ==> #[trigger] data@[i] == argb_byte(px@[i / 4], i % 4),
{
    let n = px.len();
    let mut data: Vec<u8> = Vec::new();
    let mut k: usize = 0;
    while k < n
        invariant
            n == px@.len(),
            n * 4 <= usize::MAX,
            k <= n,
            data@.len() == k * 4,
            forall|i: int| 0 <= i < data@.len() ==> #[trigger] data@[i] == argb_byte(px@[i / 4], i % 4),
        decreases n - k,
    {
        let p = px[k];
        let v = p as u32;
        let r = ((v >> 16) & 0xff) as u8;
        let g = ((v >> 8) & 0xff) as u8;
        let b = (v & 0xff) as u8;
        let a = (v >> 24) as u8;
        proof {
            assert((v >> 16) & 0xff == (v / 0x1_0000) % 0x100) by (bit_vector);
            assert((v >> 8) & 0xff == (v / 0x100) % 0x100) by (bit_vector);
            assert(v & 0xff == v % 0x100) by (bit_vector);
            assert(v >> 24 == v / 0x100_0000) by (bit_vector);
        }
        let ghost before = data@;
        data.push(r);
        data.push(g);
        data.push(b);
        data.push(a);
        proof {
            assert forall|i: int| 0 <= i < data@.len() implies #[trigger] data@[i] == argb_byte(
                px@[i / 4],
                i % 4,
            ) by {
                if i < before.len() {
                    assert(data@[i] == before[i]);
                } else {
                    assert(i / 4 == k as int);
                }
            }
        }
        k = k + 1;
    }
    data
}

/// The `width × height` bitmap of the ARGB pixels `px` (row by row).
pub fn bitmap_from_argb(width: u32, height: u32, px: &[i32]) -> (b: Bitmap)
    requires
        px@.len() == width as nat * height as nat,
        px@.len() * 4 <= usize::MAX,
    ensures
        b.width == width,
        b.height == height,
        b.well_formed(),
        forall|i: int| 0 <= i < b.data@.len() ==> #[trigger] b.data@[i] == argb_byte(px@[i / 4], i % 4),
{
    let data = argb_to_rgba(px);
    Bitmap { width, height, data }
}

} // verus!
