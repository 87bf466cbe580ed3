//! DXT1/DXT5 block texture decompression and compression.
//!
//! Textures are split into 4x4 blocks stored row by row. A DXT1 block holds two
//! RGB565 endpoint colours and sixteen 2-bit palette indices; a DXT5 block puts an
//! eight-byte alpha block (two endpoint alphas and sixteen 3-bit codes) in front of
//! a DXT1-style colour block. Decoded pixels are RGBA, four bytes each.
use vstd::prelude::*;
use crate::bytes::{le16, le32, read_u16_le, read_u32_le};
use crate::text::{concat, decimal, labelled};
use crate::AthanorError;

verus! {

#[derive(Debug, Clone, Copy, PartialEq, Eq, Structural)]
pub enum DxtFormat {
    Dxt1,
    Dxt5,
}

impl DxtFormat {
    /// Bytes per 4x4 block.
    pub open spec fn bytes_per_block(self) -> nat {
        match self {
            DxtFormat::Dxt1 => 8,
            DxtFormat::Dxt5 => 16,
        }
    }

    pub fn block_size(&self) -> (r: usize)
        ensures
            r == self.bytes_per_block(),
    {
        match self {
            DxtFormat::Dxt1 => 8,
            DxtFormat::Dxt5 => 16,
        }
    }
}

pub struct DecodedTexture {
    pub width: u32,
    pub height: u32,
    pub format: DxtFormat,
    pub pixels: Vec<u8>,
}

// ---------------------------------------------------------------- colour model

/// A 5-bit channel widened to 8 bits by repeating its top bits.
pub open spec fn expand5(v: int) -> int {
    v * 8 + v / 4
}

/// A 6-bit channel widened to 8 bits by repeating its top bits.
pub open spec fn expand6(v: int) -> int {
    v * 4 + v / 16
}

/// Channel `ch` (0 red, 1 green, 2 blue, 3 alpha) of the RGB565 colour `c`, in 8 bits.
pub open spec fn unpack565(c: int, ch: int) -> int {
    if ch == 0 {
        expand5(c / 2048)
    } else if ch == 1 {
        expand6((c / 32) % 64)
    } else if ch == 2 {
        expand5(c % 32)
    } else {
        255
    }
}

/// The RGB565 colour that keeps the top bits of an 8-bit RGB colour.
pub open spec fn pack565(r: int, g: int, b: int) -> int {
    (r / 8) * 2048 + (g / 4) * 32 + b / 8
}

/// Channel `ch` of palette entry `i` of a colour block with endpoints `c0`, `c1`:
/// the two endpoints, then either the colours one and two thirds of the way
/// between them (when `c0 > c1`), or their midpoint and transparent black.
/// Interpolated channels are rounded to the nearest integer.
pub open spec fn palette(c0: int, c1: int, i: int, ch: int) -> int {
    let e0 = unpack565(c0, ch);
    let e1 = unpack565(c1, ch);
    if i == 0 {
        e0
    } else if i == 1 {
        e1
    } else if c0 > c1 {
        if i == 2 {
            (2 * e0 + e1 + 1) / 3
        } else {
            (e0 + 2 * e1 + 1) / 3
        }
    } else if i == 2 {
        (e0 + e1 + 1) / 2
    } else {
        0
    }
}

/// The 2-bit palette index of texel `k` in a packed index word.
pub open spec fn color_index(indices: u32, k: int) -> int {
    ((indices >> ((2 * k) as u32)) & 3u32) as int
}

/// Channel `ch` of texel `k` of the colour block at `off`.
pub open spec fn color_texel(d: Seq<u8>, off: int, k: int, ch: int) -> int {
    palette(le16(d, off), le16(d, off + 2), color_index(le32(d, off + 4) as u32, k), ch)
}

/// The 48 bits of 3-bit alpha codes of the alpha block at `off`.
pub open spec fn alpha_bits(d: Seq<u8>, off: int) -> u64 {
    (le32(d, off + 2) + le16(d, off + 6) * 0x1_0000_0000) as u64
}

/// The 3-bit alpha code of texel `k` in a packed code word.
pub open spec fn alpha_code(bits: u64, k: int) -> int {
    ((bits >> ((3 * k) as u64)) & 7u64) as int
}

/// The alpha that `code` selects between endpoint alphas `a0` and `a1`.
pub open spec fn alpha_level(a0: int, a1: int, code: int) -> int {
    if code == 0 {
        a0
    } else if code == 1 {
        a1
    } else if code == 2 {
        (2 * a0 + a1) / 3
    } else if code == 3 {
        (a0 + 2 * a1) / 3
    } else if code == 4 {
        (3 * a0 + a1) / 4
    } else if code == 5 {
        (2 * a0 + 2 * a1) / 4
    } else if code == 6 {
        (a0 + 3 * a1) / 4
    } else if a0 > a1 {
        a1
    } else {
        0
    }
}

/// Alpha of texel `k` of the alpha block at `off`.
pub open spec fn alpha_texel(d: Seq<u8>, off: int, k: int) -> int {
    alpha_level(d[off] as int, d[off + 1] as int, alpha_code(alpha_bits(d, off), k))
}

/// Channel `ch` of texel `k` (row-major within its 4x4 block) of the block at `off`.
pub open spec fn block_texel(d: Seq<u8>, off: int, fmt: DxtFormat, k: int, ch: int) -> int {
    match fmt {
        DxtFormat::Dxt1 => color_texel(d, off, k, ch),
        DxtFormat::Dxt5 => if ch == 3 {
            alpha_texel(d, off, k)
        } else {
            color_texel(d, off + 8, k, ch)
        },
    }
}

/// Blocks per row (or per column) for a dimension of `n` pixels.
pub open spec fn blocks_for(n: int) -> int {
    (n + 3) / 4
}

/// Channel `ch` of pixel (`x`, `y`) of a `w`-pixel-wide texture stored as `d`.
pub open spec fn texel(d: Seq<u8>, w: int, fmt: DxtFormat, x: int, y: int, ch: int) -> int {
    let b = (y / 4) * blocks_for(w) + x / 4;
    block_texel(d, b * fmt.bytes_per_block(), fmt, (y % 4) * 4 + x % 4, ch)
}

/// Index of channel `ch` of pixel (`x`, `y`) in a `w`-pixel-wide RGBA buffer.
pub open spec fn pix(w: int, x: int, y: int, ch: int) -> int {
    4 * (y * w + x) + ch
}

/// Bytes of compressed data that a `w` x `h` texture occupies.
pub open spec fn packed_len(w: int, h: int, fmt: DxtFormat) -> int {
    blocks_for(w) * blocks_for(h) * fmt.bytes_per_block()
}

/// The sizes for which decompressing does not overflow its index arithmetic.
pub open spec fn decompress_sizes_ok(data_len: int, w: u32, h: u32, fmt: DxtFormat) -> bool {
    &&& w + 3 <= u32::MAX
    &&& h + 3 <= u32::MAX
    &&& blocks_for(w as int) * blocks_for(h as int) <= u32::MAX
    &&& packed_len(w as int, h as int, fmt) <= usize::MAX
    &&& data_len >= packed_len(w as int, h as int, fmt) ==> 4 * w * h <= u32::MAX
}

// ---------------------------------------------------------------- arithmetic facts

proof fn lemma_pix_bounds(w: int, h: int, x: int, y: int, ch: int)
    requires
        0 <= x < w,
        0 <= y < h,
        0 <= ch < 4,
    ensures
        0 <= pix(w, x, y, ch) < 4 * w * h,
        0 <= y * w + x < w * h,
{
    assert(0 <= y * w) by (nonlinear_arith)
        requires
            0 <= y,
            0 <= w,
    ;
    assert(y * w + x < w * h) by (nonlinear_arith)
        requires
            0 <= x < w,
            0 <= y < h,
    ;
    assert(4 * (y * w + x) + ch < 4 * w * h) by (nonlinear_arith)
        requires
            y * w + x < w * h,
            0 <= ch < 4,
    ;
}

proof fn lemma_pix_injective(w: int, x1: int, y1: int, c1: int, x2: int, y2: int, c2: int)
    requires
        0 <= x1 < w,
        0 <= x2 < w,
        0 <= y1,
        0 <= y2,
        0 <= c1 < 4,
        0 <= c2 < 4,
        pix(w, x1, y1, c1) == pix(w, x2, y2, c2),
    ensures
        x1 == x2 && y1 == y2 && c1 == c2,
{
    assert(c1 == c2);
    assert(y1 * w + x1 == y2 * w + x2);
    if y1 < y2 {
        assert(y1 * w + x1 < y2 * w + x2) by (nonlinear_arith)
            requires
                0 <= x1 < w,
                0 <= x2,
                0 <= y1 < y2,
        ;
    } else if y2 < y1 {
        assert(y2 * w + x2 < y1 * w + x1) by (nonlinear_arith)
            requires
                0 <= x2 < w,
                0 <= x1,
                0 <= y2 < y1,
        ;
    }
}

// ---------------------------------------------------------------- decoding

fn unpack_channel(c: u16, ch: u32) -> (r: u32)
    requires
        ch < 4,
    ensures
        r == unpack565(c as int, ch as int),
        r <= 255,
{
    if ch == 0 {
        let v = (c / 2048) as u32;
        v * 8 + v / 4
    } else if ch == 1 {
        let v = ((c / 32) % 64) as u32;
        v * 4 + v / 16
    } else if ch == 2 {
        let v = (c % 32) as u32;
        v * 8 + v / 4
    } else {
        255
    }
}

/// Widens an RGB565 colour to 8-bit RGBA: each field's top bits are repeated
/// into the low bits, and alpha is opaque.
pub fn expand_rgb565(c: u16) -> (r: [u8; 4])
    ensures
        forall|ch: int| 0 <= ch < 4 ==> r@[ch] == unpack565(c as int, ch),
{
    let r = [
        unpack_channel(c, 0) as u8,
        unpack_channel(c, 1) as u8,
        unpack_channel(c, 2) as u8,
        unpack_channel(c, 3) as u8,
    ];
    assert(r@.len() == 4);
    r
}

fn palette_channel(c0: u16, c1: u16, i: u32, ch: u32) -> (r: u8)
    requires
        ch < 4,
    ensures
        r == palette(c0 as int, c1 as int, i as int, ch as int),
{
    let e0 = unpack_channel(c0, ch);
    let e1 = unpack_channel(c1, ch);
    if i == 0 {
        e0 as u8
    } else if i == 1 {
        e1 as u8
    } else if c0 > c1 {
        if i == 2 {
            ((2 * e0 + e1 + 1) / 3) as u8
        } else {
            ((e0 + 2 * e1 + 1) / 3) as u8
        }
    } else if i == 2 {
        ((e0 + e1 + 1) / 2) as u8
    } else {
        0
    }
}

/// Writes the decoded colour block at `offset` into the pixels of block
/// (`block_x`, `block_y`) that lie inside the texture.
fn decode_dxt1_block(
    data: &[u8],
    offset: usize,
    colors: &mut Vec<u8>,
    width: u32,
    height: u32,
    block_x: u32,
    block_y: u32,
)
    requires
        offset + 8 <= data@.len(),
        old(colors)@.len() == 4 * width * height,
        4 * width * height <= u32::MAX,
        block_x * 4 + 3 <= u32::MAX,
        block_y * 4 + 3 <= u32::MAX,
    ensures
        final(colors)@.len() == old(colors)@.len(),
        forall|x: int, y: int, ch: int|
            #![trigger final(colors)@[pix(width as int, x, y, ch)]]
            0 <= x < width && 0 <= y < height && 0 <= ch < 4 ==> final(colors)@[pix(
                width as int,
                x,
                y,
                ch,
            )] == if 4 * block_x <= x < 4 * block_x + 4 && 4 * block_y <= y < 4 * block_y + 4 {
                color_texel(data@, offset as int, (y - 4 * block_y) * 4 + (x - 4 * block_x), ch)
            } else {
                old(colors)@[pix(width as int, x, y, ch)] as int
            },
{
    let _n = data.len();
    let c0 = read_u16_le(data, offset);
    let c1 = read_u16_le(data, offset + 2);
    let indices = read_u32_le(data, offset + 4);
    let ghost w = width as int;
    let ghost start = colors@;
    let mut k: u32 = 0;
    while k < 16
        invariant
            0 <= k <= 16,
            w == width,
            offset + 8 <= data@.len(),
            colors@.len() == start.len(),
            start.len() == 4 * width * height,
            4 * width * height <= u32::MAX,
            block_x * 4 + 3 <= u32::MAX,
            block_y * 4 + 3 <= u32::MAX,
            c0 == le16(data@, offset as int),
            c1 == le16(data@, offset + 2),
            indices == le32(data@, offset + 4),
            forall|x: int, y: int, ch: int|
                #![trigger colors@[pix(w, x, y, ch)]]
                0 <= x < width && 0 <= y < height && 0 <= ch < 4 ==> colors@[pix(w, x, y, ch)]
                    == if 4 * block_x <= x < 4 * block_x + 4 && 4 * block_y <= y < 4 * block_y + 4
                    && (y - 4 * block_y) * 4 + (x - 4 * block_x) < k {
                    color_texel(data@, offset as int, (y - 4 * block_y) * 4 + (x - 4 * block_x), ch)
                } else {
                    start[pix(w, x, y, ch)] as int
                },
        decreases 16 - k,
    {
        let row = k / 4;
        let col = k % 4;
        let px = block_x * 4 + col;
        let py = block_y * 4 + row;
        if px < width && py < height {
            let index = (indices >> (k * 2)) & 3;
            proof {
                lemma_pix_bounds(w, height as int, px as int, py as int, 3);
            }
            let base = (py * width + px) * 4;
            let mut ch: u32 = 0;
            while ch < 4
                invariant
                    0 <= ch <= 4,
                    0 <= k < 16,
                    w == width,
                    row == k / 4,
                    col == k % 4,
                    px == block_x * 4 + col,
                    py == block_y * 4 + row,
                    px < width,
                    py < height,
                    base == 4 * (py * w + px),
                    index == color_index(indices, k as int),
                    colors@.len() == start.len(),
                    start.len() == 4 * width * height,
                    c0 == le16(data@, offset as int),
                    c1 == le16(data@, offset + 2),
                    indices == le32(data@, offset + 4),
                    forall|x: int, y: int, c: int|
                        #![trigger colors@[pix(w, x, y, c)]]
                        0 <= x < width && 0 <= y < height && 0 <= c < 4 ==> colors@[pix(w, x, y, c)]
                            == if 4 * block_x <= x < 4 * block_x + 4 && 4 * block_y <= y < 4
                            * block_y + 4 && ((y - 4 * block_y) * 4 + (x - 4 * block_x) < k || (x
                            == px && y == py && c < ch)) {
                            color_texel(
                                data@,
                                offset as int,
                                (y - 4 * block_y) * 4 + (x - 4 * block_x),
                                c,
                            )
                        } else {
                            start[pix(w, x, y, c)] as int
                        },
                decreases 4 - ch,
            {
                let v = palette_channel(c0, c1, index, ch);
                proof {
                    lemma_pix_bounds(w, height as int, px as int, py as int, ch as int);
                    assert forall|x: int, y: int, c: int|
                        #![trigger pix(w, x, y, c)]
                        0 <= x < width && 0 <= y < height && 0 <= c < 4 && pix(w, x, y, c) == pix(
                            w,
                            px as int,
                            py as int,
                            ch as int,
                        ) implies x == px && y == py && c == ch by {
                        lemma_pix_injective(w, x, y, c, px as int, py as int, ch as int);
                    }
                }
                let ghost prev = colors@;
                colors.set((base + ch) as usize, v);
                proof {
                    assert forall|x: int, y: int, c: int|
                        0 <= x < width && 0 <= y < height && 0 <= c < 4 implies #[trigger] colors@[pix(
                            w,
                            x,
                            y,
                            c,
                        )] == if 4 * block_x <= x < 4 * block_x + 4 && 4 * block_y <= y < 4
                        * block_y + 4 && ((y - 4 * block_y) * 4 + (x - 4 * block_x) < k || (x
                        == px && y == py && c < ch + 1)) {
                        color_texel(
                            data@,
                            offset as int,
                            (y - 4 * block_y) * 4 + (x - 4 * block_x),
                            c,
                        )
                    } else {
                        start[pix(w, x, y, c)] as int
                    } by {
                        lemma_pix_bounds(w, height as int, x, y, c);
                        if x == px && y == py && c == ch {
                            assert(pix(w, x, y, c) == base + ch);
                            assert((y - 4 * block_y) * 4 + (x - 4 * block_x) == k);
                        } else {
                            if pix(w, x, y, c) == base + ch {
                                lemma_pix_injective(w, x, y, c, px as int, py as int, ch as int);
                            }
                            assert(colors@[pix(w, x, y, c)] == prev[pix(w, x, y, c)]);
                        }
                    }
                }
                ch += 1;
            }
        }
        k += 1;
    }
}

/// Alpha of each of the 16 texels of the DXT5 alpha block at `offset`.
fn decode_dxt5_alpha(data: &[u8], offset: usize) -> (r: Vec<u8>)
    requires
        offset + 8 <= data@.len(),
    ensures
        r@.len() == 16,
        forall|k: int| 0 <= k < 16 ==> #[trigger] r@[k] == alpha_texel(data@, offset as int, k),
{
    let a0 = data[offset];
    let a1 = data[offset + 1];
    let lo = read_u32_le(data, offset + 2) as u64;
    let hi = read_u16_le(data, offset + 6) as u64;
    let bits: u64 = lo + hi * 0x1_0000_0000;
    let mut alpha_vals: Vec<u8> = Vec::new();
    let mut i: u64 = 0;
    while i < 16
        invariant
            i <= 16,
            alpha_vals@.len() == i,
            a0 == data@[offset as int],
            a1 == data@[offset + 1],
            bits == alpha_bits(data@, offset as int),
            forall|k: int| 0 <= k < i ==> #[trigger] alpha_vals@[k] == alpha_texel(data@, offset as int, k),
        decreases 16 - i,
    {
        let code = (bits >> (i * 3)) & 7;
        let a = a0 as u32;
        let b = a1 as u32;
        let v: u32 = if code == 0 {
            a
        } else if code == 1 {
            b
        } else if code == 2 {
            (2 * a + b) / 3
        } else if code == 3 {
            (a + 2 * b) / 3
        } else if code == 4 {
            (3 * a + b) / 4
        } else if code == 5 {
            (2 * a + 2 * b) / 4
        } else if code == 6 {
            (a + 3 * b) / 4
        } else if a0 > a1 {
            b
        } else {
            0
        };
        assert(code as int == alpha_code(bits, i as int));
        alpha_vals.push(v as u8);
        i += 1;
    }
    alpha_vals
}

/// Writes the decoded DXT5 block at `offset` into the pixels of block
/// (`block_x`, `block_y`) that lie inside the texture.
fn decode_dxt5_block(
    data: &[u8],
    offset: usize,
    colors: &mut Vec<u8>,
    width: u32,
    height: u32,
    block_x: u32,
    block_y: u32,
)
    requires
        offset + 16 <= data@.len(),
        old(colors)@.len() == 4 * width * height,
        4 * width * height <= u32::MAX,
        block_x * 4 + 3 <= u32::MAX,
        block_y * 4 + 3 <= u32::MAX,
    ensures
        final(colors)@.len() == old(colors)@.len(),
        forall|x: int, y: int, ch: int|
            #![trigger final(colors)@[pix(width as int, x, y, ch)]]
            0 <= x < width && 0 <= y < height && 0 <= ch < 4 ==> final(colors)@[pix(
                width as int,
                x,
                y,
                ch,
            )] == if 4 * block_x <= x < 4 * block_x + 4 && 4 * block_y <= y < 4 * block_y + 4 {
                block_texel(
                    data@,
                    offset as int,
                    DxtFormat::Dxt5,
                    (y - 4 * block_y) * 4 + (x - 4 * block_x),
                    ch,
                )
            } else {
                old(colors)@[pix(width as int, x, y, ch)] as int
            },
{
    let _n = data.len();
    let alpha_vals = decode_dxt5_alpha(data, offset);
    decode_dxt1_block(data, offset + 8, colors, width, height, block_x, block_y);
    let ghost w = width as int;
    let ghost start = old(colors)@;
    let ghost mid = colors@;
    let mut k: u32 = 0;
    while k < 16
        invariant
            0 <= k <= 16,
            w == width,
            offset + 16 <= data@.len(),
            colors@.len() == start.len(),
            mid.len() == start.len(),
            start.len() == 4 * width * height,
            4 * width * height <= u32::MAX,
            block_x * 4 + 3 <= u32::MAX,
            block_y * 4 + 3 <= u32::MAX,
            alpha_vals@.len() == 16,
            forall|j: int| 0 <= j < 16 ==> #[trigger] alpha_vals@[j] == alpha_texel(data@, offset as int, j),
            forall|x: int, y: int, ch: int|
                #![trigger mid[pix(w, x, y, ch)]]
                0 <= x < width && 0 <= y < height && 0 <= ch < 4 ==> mid[pix(w, x, y, ch)]
                    == if 4 * block_x <= x < 4 * block_x + 4 && 4 * block_y <= y < 4 * block_y + 4 {
                    color_texel(data@, offset + 8, (y - 4 * block_y) * 4 + (x - 4 * block_x), ch)
                } else {
                    start[pix(w, x, y, ch)] as int
                },
            forall|x: int, y: int, ch: int|
                #![trigger colors@[pix(w, x, y, ch)]]
                0 <= x < width && 0 <= y < height && 0 <= ch < 4 ==> colors@[pix(w, x, y, ch)]
                    == if ch == 3 && 4 * block_x <= x < 4 * block_x + 4 && 4 * block_y <= y < 4
                    * block_y + 4 && (y - 4 * block_y) * 4 + (x - 4 * block_x) < k {
                    alpha_texel(data@, offset as int, (y - 4 * block_y) * 4 + (x - 4 * block_x))
                } else {
                    mid[pix(w, x, y, ch)] as int
                },
        decreases 16 - k,
    {
        let row = k / 4;
        let col = k % 4;
        let px = block_x * 4 + col;
        let py = block_y * 4 + row;
        if px < width && py < height {
            proof {
                lemma_pix_bounds(w, height as int, px as int, py as int, 3);
                assert forall|x: int, y: int, c: int|
                    #![trigger pix(w, x, y, c)]
                    0 <= x < width && 0 <= y < height && 0 <= c < 4 && pix(w, x, y, c) == pix(
                        w,
                        px as int,
                        py as int,
                        3,
                    ) implies x == px && y == py && c == 3 by {
                    lemma_pix_injective(w, x, y, c, px as int, py as int, 3);
                }
            }
            let base = (py * width + px) * 4;
            let ghost prev = colors@;
            colors.set((base + 3) as usize, alpha_vals[k as usize]);
            proof {
                assert forall|x: int, y: int, c: int|
                    0 <= x < width && 0 <= y < height && 0 <= c < 4 implies #[trigger] colors@[pix(
                        w,
                        x,
                        y,
                        c,
                    )] == if c == 3 && 4 * block_x <= x < 4 * block_x + 4 && 4 * block_y <= y < 4
                    * block_y + 4 && (y - 4 * block_y) * 4 + (x - 4 * block_x) < k + 1 {
                        alpha_texel(data@, offset as int, (y - 4 * block_y) * 4 + (x - 4 * block_x))
                    } else {
                        mid[pix(w, x, y, c)] as int
                    } by {
                    lemma_pix_bounds(w, height as int, x, y, c);
                    if x == px && y == py && c == 3 {
                        assert(pix(w, x, y, c) == base + 3);
                        assert((y - 4 * block_y) * 4 + (x - 4 * block_x) == k);
                    } else {
                        if pix(w, x, y, c) == base + 3 {
                            lemma_pix_injective(w, x, y, c, px as int, py as int, 3);
                        }
                        assert(colors@[pix(w, x, y, c)] == prev[pix(w, x, y, c)]);
                    }
                }
            }
        } else {
            proof {
                assert forall|x: int, y: int, c: int|
                    0 <= x < width && 0 <= y < height && 0 <= c < 4 && c == 3 && 4 * block_x <= x < 4 * block_x + 4 && 4 * block_y <= y < 4
                    * block_y + 4 implies #[trigger] pix(w, x, y, c) >= 0 && (y - 4 * block_y) * 4 + (x - 4 * block_x) != k by {
                }
            }
        }
        k += 1;
    }
}

/// Writes the decoded block at `offset` into the pixels of block
/// (`block_x`, `block_y`) that lie inside the texture.
fn decode_block(
    data: &[u8],
    offset: usize,
    colors: &mut Vec<u8>,
    width: u32,
    height: u32,
    block_x: u32,
    block_y: u32,
    format: DxtFormat,
)
    requires
        offset + format.bytes_per_block() <= data@.len(),
        old(colors)@.len() == 4 * width * height,
        4 * width * height <= u32::MAX,
        block_x * 4 + 3 <= u32::MAX,
        block_y * 4 + 3 <= u32::MAX,
    ensures
        final(colors)@.len() == old(colors)@.len(),
        forall|x: int, y: int, ch: int|
            #![trigger final(colors)@[pix(width as int, x, y, ch)]]
            0 <= x < width && 0 <= y < height && 0 <= ch < 4 ==> final(colors)@[pix(
                width as int,
                x,
                y,
                ch,
            )] == if 4 * block_x <= x < 4 * block_x + 4 && 4 * block_y <= y < 4 * block_y + 4 {
                block_texel(
                    data@,
                    offset as int,
                    format,
                    (y - 4 * block_y) * 4 + (x - 4 * block_x),
                    ch,
                )
            } else {
                old(colors)@[pix(width as int, x, y, ch)] as int
            },
{
    match format {
        DxtFormat::Dxt1 => {
            decode_dxt1_block(data, offset, colors, width, height, block_x, block_y);
        },
        DxtFormat::Dxt5 => {
            decode_dxt5_block(data, offset, colors, width, height, block_x, block_y);
        },
    }
}

/// The 8-bit sum behind an interpolated alpha code stays below 256 (the
/// decoder computes those sums in bytes).
pub open spec fn alpha_fits(a0: int, a1: int, code: int) -> bool {
    if code == 2 {
        2 * a0 + a1 <= 255
    } else if code == 3 {
        a0 + 2 * a1 <= 255
    } else if code == 4 {
        3 * a0 + a1 <= 255
    } else if code == 5 {
        2 * a0 + 2 * a1 <= 255
    } else if code == 6 {
        a0 + 3 * a1 <= 255
    } else {
        true
    }
}

/// Every alpha code of every DXT5 block of a `w` x `h` texture stored as `d`
/// has an in-range sum.
pub open spec fn dxt5_alphas_fit(d: Seq<u8>, w: u32, h: u32, fmt: DxtFormat) -> bool {
    fmt == DxtFormat::Dxt5 && d.len() >= packed_len(w as int, h as int, fmt) ==> forall|
        b: int,
        k: int,
    |
        #![trigger alpha_code(alpha_bits(d, b * 16), k)]
        0 <= b < blocks_for(w as int) * blocks_for(h as int) && 0 <= k < 16 ==> alpha_fits(
            d[b * 16] as int,
            d[b * 16 + 1] as int,
            alpha_code(alpha_bits(d, b * 16), k),
        )
}

/// Whether the alpha codes of the DXT5 block at `offset` all have in-range sums.
fn block_alphas_fit(data: &[u8], offset: usize) -> (r: bool)
    requires
        offset + 8 <= data@.len(),
    ensures
        r == forall|k: int|
            #![trigger alpha_code(alpha_bits(data@, offset as int), k)]
            0 <= k < 16 ==> alpha_fits(
                data@[offset as int] as int,
                data@[offset + 1] as int,
                alpha_code(alpha_bits(data@, offset as int), k),
            ),
{
    let a = data[offset] as u32;
    let b = data[offset + 1] as u32;
    let lo = read_u32_le(data, offset + 2) as u64;
    let hi = read_u16_le(data, offset + 6) as u64;
    let bits: u64 = lo + hi * 0x1_0000_0000;
    let mut i: u64 = 0;
    while i < 16
        invariant
            i <= 16,
            a == data@[offset as int],
            b == data@[offset + 1],
            bits == alpha_bits(data@, offset as int),
            forall|k: int|
                #![trigger alpha_code(alpha_bits(data@, offset as int), k)]
                0 <= k < i ==> alpha_fits(a as int, b as int, alpha_code(bits, k)),
        decreases 16 - i,
    {
        let code = (bits >> (i * 3)) & 7;
        assert(code as int == alpha_code(bits, i as int));
        let ok = if code == 2 {
            2 * a + b <= 255
        } else if code == 3 {
            a + 2 * b <= 255
        } else if code == 4 {
            3 * a + b <= 255
        } else if code == 5 {
            2 * a + 2 * b <= 255
        } else if code == 6 {
            a + 3 * b <= 255
        } else {
            true
        };
        if !ok {
            return false;
        }
        i += 1;
    }
    true
}

/// Whether `dxt5_alphas_fit` holds: the decoder's byte sums for the alpha
/// codes of every DXT5 block stay in range.
pub fn dxt5_alphas_in_range(data: &[u8], width: u32, height: u32, format: DxtFormat) -> (r: bool)
    requires
        decompress_sizes_ok(data@.len() as int, width, height, format),
    ensures
        r == dxt5_alphas_fit(data@, width, height, format),
{
    let n = data.len();
    if format != DxtFormat::Dxt5 {
        return true;
    }
    let blocks = ((width + 3) / 4) as usize * ((height + 3) / 4) as usize;
    assert(blocks == blocks_for(width as int) * blocks_for(height as int));
    if n < blocks * 16 {
        return true;
    }
    let mut b: usize = 0;
    while b < blocks
        invariant
            n == data@.len(),
            format == DxtFormat::Dxt5,
            blocks == blocks_for(width as int) * blocks_for(height as int),
            blocks * 16 <= n,
            b <= blocks,
            forall|c: int, k: int|
                #![trigger alpha_code(alpha_bits(data@, c * 16), k)]
                0 <= c < b && 0 <= k < 16 ==> alpha_fits(
                    data@[c * 16] as int,
                    data@[c * 16 + 1] as int,
                    alpha_code(alpha_bits(data@, c * 16), k),
                ),
        decreases blocks - b,
    {
        assert(b * 16 + 16 <= blocks * 16) by (nonlinear_arith)
            requires
                b < blocks,
        ;
        if !block_alphas_fit(data, b * 16) {
            proof {
                let k = choose|k: int|
                    #![trigger alpha_code(alpha_bits(data@, b * 16), k)]
                    0 <= k < 16 && !alpha_fits(
                        data@[b * 16] as int,
                        data@[b * 16 + 1] as int,
                        alpha_code(alpha_bits(data@, b * 16), k),
                    );
                assert(packed_len(width as int, height as int, format) == blocks * 16);
                assert(!dxt5_alphas_fit(data@, width, height, format));
            }
            return false;
        }
        b += 1;
    }
    true
}

/// Decodes a DXT1 or DXT5 texture of `width` x `height` pixels into RGBA bytes.
pub fn decompress(data: &[u8], width: u32, height: u32, format: DxtFormat) -> (r: Result<
    Vec<u8>,
    AthanorError,
>)
    requires
        decompress_sizes_ok(data@.len() as int, width, height, format),
        dxt5_alphas_fit(data@, width, height, format),
    ensures
        data@.len() < packed_len(width as int, height as int, format) <==> r is Err,
        r matches Err(e) ==> e.is_invalid_data(
            "DXT data too short: got "@ + decimal(data@.len()) + " bytes, expected "@ + decimal(
                packed_len(width as int, height as int, format) as nat,
            ),
        ),
        r matches Ok(pixels) ==> {
            &&& pixels@.len() == 4 * width * height
            &&& forall|x: int, y: int, ch: int|
                #![trigger pixels@[pix(width as int, x, y, ch)]]
                0 <= x < width && 0 <= y < height && 0 <= ch < 4 ==> pixels@[pix(
                    width as int,
                    x,
                    y,
                    ch,
                )] == texel(data@, width as int, format, x, y, ch)
        },
{
    let block_size = format.block_size();
    let blocks_x = (width + 3) / 4;
    let blocks_y = (height + 3) / 4;
    let expected = (blocks_x * blocks_y) as usize * block_size;
    if data.len() < expected {
        let got = labelled("DXT data too short: got ", data.len() as u64);
        let wanted = labelled(" bytes, expected ", expected as u64);
        let msg = concat(got.as_str(), wanted.as_str());
        assert(expected == packed_len(width as int, height as int, format));
        assert(msg@ =~= "DXT data too short: got "@ + decimal(data@.len()) + " bytes, expected "@
            + decimal(packed_len(width as int, height as int, format) as nat));
        return Err(AthanorError::InvalidData(msg));
    }
    assert(width * height * 4 == 4 * width * height) by (nonlinear_arith);
    assert(width * height <= 4 * width * height) by (nonlinear_arith);
    let total = (width * height * 4) as usize;
    let mut pixels: Vec<u8> = Vec::new();
    while pixels.len() < total
        invariant
            pixels@.len() <= total,
            forall|i: int| 0 <= i < pixels@.len() ==> pixels@[i] == 0,
        decreases total - pixels@.len(),
    {
        pixels.push(0);
    }
    let ghost w = width as int;
    let ghost d = data@;
    let ghost bs = format.bytes_per_block() as int;
    proof {
        assert forall|x: int, y: int, ch: int|
            0 <= x < width && 0 <= y < height && 0 <= ch < 4 implies #[trigger] pixels@[pix(w, x, y, ch)] == 0 by {
            lemma_pix_bounds(w, height as int, x, y, ch);
        }
    }
    let n = data.len();
    let mut idx: usize = 0;
    let mut by: u32 = 0;
    while by < blocks_y
        invariant
            d == data@,
            bs == block_size,
            bs == format.bytes_per_block(),
            blocks_x == blocks_for(w),
            blocks_y == blocks_for(height as int),
            w == width,
            width + 3 <= u32::MAX,
            height + 3 <= u32::MAX,
            by <= blocks_y,
            idx == by * blocks_x * bs,
            blocks_x * blocks_y * bs <= data@.len(),
            n == data@.len(),
            pixels@.len() == 4 * width * height,
            4 * width * height <= u32::MAX,
            forall|x: int, y: int, ch: int|
                #![trigger pixels@[pix(w, x, y, ch)]]
                0 <= x < width && 0 <= y < height && 0 <= ch < 4 ==> pixels@[pix(w, x, y, ch)]
                    == if y / 4 < by {
                    texel(d, w, format, x, y, ch)
                } else {
                    0
                },
        decreases blocks_y - by,
    {
        let mut bx: u32 = 0;
        while bx < blocks_x
            invariant
                d == data@,
                bs == block_size,
                bs == format.bytes_per_block(),
                blocks_x == blocks_for(w),
                blocks_y == blocks_for(height as int),
                w == width,
                width + 3 <= u32::MAX,
                height + 3 <= u32::MAX,
                by < blocks_y,
                bx <= blocks_x,
                idx == (by * blocks_x + bx) * bs,
                blocks_x * blocks_y * bs <= data@.len(),
                n == data@.len(),
            n == data@.len(),
                pixels@.len() == 4 * width * height,
                4 * width * height <= u32::MAX,
                forall|x: int, y: int, ch: int|
                    #![trigger pixels@[pix(w, x, y, ch)]]
                    0 <= x < width && 0 <= y < height && 0 <= ch < 4 ==> pixels@[pix(w, x, y, ch)]
                        == if y / 4 < by || (y / 4 == by && x / 4 < bx) {
                        texel(d, w, format, x, y, ch)
                    } else {
                        0
                    },
            decreases blocks_x - bx,
        {
            proof {
                assert((by * blocks_x + bx + 1) * bs <= blocks_x * blocks_y * bs) by (nonlinear_arith)
                    requires
                        0 <= bx < blocks_x,
                        0 <= by < blocks_y,
                        0 <= bs,
                ;
            }
            let ghost before = pixels@;
            assert(idx + bs == (by * blocks_x + bx + 1) * bs) by (nonlinear_arith)
                requires
                    idx == (by * blocks_x + bx) * bs,
            ;
            decode_block(data, idx, &mut pixels, width, height, bx, by, format);
            proof {
                assert forall|x: int, y: int, ch: int|
                    0 <= x < width && 0 <= y < height && 0 <= ch < 4 implies #[trigger] pixels@[pix(
                        w,
                        x,
                        y,
                        ch,
                    )] == if y / 4 < by || (y / 4 == by && x / 4 < bx + 1) {
                        texel(d, w, format, x, y, ch)
                    } else {
                        0
                    } by {
                    assert(before[pix(w, x, y, ch)] == if y / 4 < by || (y / 4 == by && x / 4
                        < bx) {
                        texel(d, w, format, x, y, ch)
                    } else {
                        0
                    });
                    if 4 * bx <= x < 4 * bx + 4 && 4 * by <= y < 4 * by + 4 {
                        assert(x / 4 == bx && y / 4 == by);
                        assert(x % 4 == x - 4 * bx && y % 4 == y - 4 * by);
                        assert((y / 4) * blocks_x + x / 4 == by * blocks_x + bx);
                        assert(texel(d, w, format, x, y, ch) == block_texel(d, idx as int, format, (y - 4 * by) * 4 + (x - 4 * bx), ch));
                    } else {
                        assert(!(x / 4 == bx && y / 4 == by));
                    }
                }
            }
            idx = idx + block_size;
            proof {
                assert(idx == (by * blocks_x + bx + 1) * bs) by (nonlinear_arith)
                    requires
                        idx == (by * blocks_x + bx) * bs + bs,
                ;
            }
            bx += 1;
        }
        proof {
            assert(idx == (by + 1) * blocks_x * bs) by (nonlinear_arith)
                requires
                    idx == (by * blocks_x + blocks_x) * bs,
            ;
            assert forall|x: int, y: int, ch: int|
                0 <= x < width && 0 <= y < height && 0 <= ch < 4 implies #[trigger] pixels@[pix(
                    w,
                    x,
                    y,
                    ch,
                )] == if y / 4 < by + 1 {
                    texel(d, w, format, x, y, ch)
                } else {
                    0
                } by {
                assert(x / 4 < blocks_x);
            }
        }
        by += 1;
    }
    proof {
        assert forall|x: int, y: int, ch: int|
            0 <= x < width && 0 <= y < height && 0 <= ch < 4 implies #[trigger] pixels@[pix(
                w,
                x,
                y,
                ch,
            )] == texel(d, w, format, x, y, ch) by {
            assert(y / 4 < blocks_y);
        }
    }
    Ok(pixels)
}


// ---------------------------------------------------------------- encoding

/// Channel `ch` of texel `k` of block (`bx`, `by`) of a `w` x `h` RGBA image;
/// texels outside the image read as zero.
pub open spec fn source_texel(p: Seq<u8>, w: int, h: int, bx: int, by: int, k: int, ch: int) -> int {
    let x = 4 * bx + k % 4;
    let y = 4 * by + k / 4;
    if x < w && y < h {
        p[pix(w, x, y, ch)] as int
    } else {
        0
    }
}

/// Texels `k1` and `k2` of a block agree in all four channels.
pub open spec fn same_texel(p: Seq<u8>, w: int, h: int, bx: int, by: int, k1: int, k2: int) -> bool {
    &&& source_texel(p, w, h, bx, by, k1, 0) == source_texel(p, w, h, bx, by, k2, 0)
    &&& source_texel(p, w, h, bx, by, k1, 1) == source_texel(p, w, h, bx, by, k2, 1)
    &&& source_texel(p, w, h, bx, by, k1, 2) == source_texel(p, w, h, bx, by, k2, 2)
    &&& source_texel(p, w, h, bx, by, k1, 3) == source_texel(p, w, h, bx, by, k2, 3)
}

/// Endpoint colour `e` (0 or 1) of an encoded block: the RGB565 form of its first
/// texel, or of its last.
pub open spec fn endpoint(p: Seq<u8>, w: int, h: int, bx: int, by: int, e: int) -> int {
    let k = if e == 0 {
        0
    } else {
        15
    };
    pack565(
        source_texel(p, w, h, bx, by, k, 0),
        source_texel(p, w, h, bx, by, k, 1),
        source_texel(p, w, h, bx, by, k, 2),
    )
}

/// Channel `ch` one third of the way from texel 0 to texel 1 of a block (rounded down).
pub open spec fn third_channel(p: Seq<u8>, w: int, h: int, bx: int, by: int, ch: int) -> int {
    (2 * source_texel(p, w, h, bx, by, 0, ch) + source_texel(p, w, h, bx, by, 1, ch)) / 3
}

/// The palette index chosen for texel `k` of a block: when the first endpoint is
/// the greater, 0 for a texel equal to texel 0, 1 for one equal to texel 1, 2 for
/// one whose colour is a third of the way between them, 3 otherwise; else 0.
pub open spec fn chosen_index(p: Seq<u8>, w: int, h: int, bx: int, by: int, k: int) -> u32 {
    if endpoint(p, w, h, bx, by, 0) > endpoint(p, w, h, bx, by, 1) {
        if same_texel(p, w, h, bx, by, k, 0) {
            0
        } else if same_texel(p, w, h, bx, by, k, 1) {
            1
        } else if source_texel(p, w, h, bx, by, k, 0) == third_channel(p, w, h, bx, by, 0)
            && source_texel(p, w, h, bx, by, k, 1) == third_channel(p, w, h, bx, by, 1)
            && source_texel(p, w, h, bx, by, k, 2) == third_channel(p, w, h, bx, by, 2) {
            2
        } else {
            3
        }
    } else {
        0
    }
}

/// The indices of texels `0..n` packed two bits each, texel 0 lowest.
pub open spec fn packed_indices(p: Seq<u8>, w: int, h: int, bx: int, by: int, n: nat) -> u32
    decreases n,
{
    if n == 0 {
        0
    } else {
        packed_indices(p, w, h, bx, by, (n - 1) as nat) | (chosen_index(
            p,
            w,
            h,
            bx,
            by,
            n - 1,
        ) << ((2 * (n - 1)) as u32))
    }
}

/// Byte `j` (< 8) of the colour block encoded for block (`bx`, `by`): both
/// endpoints, then the packed indices, little-endian.
pub open spec fn color_block_byte(p: Seq<u8>, w: int, h: int, bx: int, by: int, j: int) -> u8 {
    let c0 = endpoint(p, w, h, bx, by, 0);
    let c1 = endpoint(p, w, h, bx, by, 1);
    let ix = packed_indices(p, w, h, bx, by, 16);
    if j == 0 {
        (c0 % 256) as u8
    } else if j == 1 {
        (c0 / 256) as u8
    } else if j == 2 {
        (c1 % 256) as u8
    } else if j == 3 {
        (c1 / 256) as u8
    } else {
        (ix >> ((8 * (j - 4)) as u32)) as u8
    }
}

/// The alpha code chosen for texel `k`: 0 when its alpha exceeds the mean of the
/// alphas of texels 0 and 15, else 1.
pub open spec fn chosen_alpha_code(p: Seq<u8>, w: int, h: int, bx: int, by: int, k: int) -> u64 {
    if source_texel(p, w, h, bx, by, k, 3) > (source_texel(p, w, h, bx, by, 0, 3)
        + source_texel(p, w, h, bx, by, 15, 3)) / 2 {
        0
    } else {
        1
    }
}

/// The alpha codes of texels `0..n` packed three bits each, texel 0 lowest.
pub open spec fn packed_alpha_codes(p: Seq<u8>, w: int, h: int, bx: int, by: int, n: nat) -> u64
    decreases n,
{
    if n == 0 {
        0
    } else {
        packed_alpha_codes(p, w, h, bx, by, (n - 1) as nat) | (chosen_alpha_code(
            p,
            w,
            h,
            bx,
            by,
            n - 1,
        ) << ((3 * (n - 1)) as u64))
    }
}

/// Byte `j` (< 8) of the alpha block encoded for block (`bx`, `by`): the alphas of
/// texels 0 and 15, then six bytes of packed codes, little-endian.
pub open spec fn alpha_block_byte(p: Seq<u8>, w: int, h: int, bx: int, by: int, j: int) -> u8 {
    if j == 0 {
        source_texel(p, w, h, bx, by, 0, 3) as u8
    } else if j == 1 {
        source_texel(p, w, h, bx, by, 15, 3) as u8
    } else {
        (packed_alpha_codes(p, w, h, bx, by, 16) >> ((8 * (j - 2)) as u64)) as u8
    }
}

/// Byte `j` of the block encoded for block (`bx`, `by`).
pub open spec fn encoded_byte(
    p: Seq<u8>,
    w: int,
    h: int,
    fmt: DxtFormat,
    bx: int,
    by: int,
    j: int,
) -> u8 {
    match fmt {
        DxtFormat::Dxt1 => color_block_byte(p, w, h, bx, by, j),
        DxtFormat::Dxt5 => if j < 8 {
            alpha_block_byte(p, w, h, bx, by, j)
        } else {
            color_block_byte(p, w, h, bx, by, j - 8)
        },
    }
}

/// The sizes and pixel buffers for which compressing reads and indexes in bounds.
pub open spec fn compress_sizes_ok(pixels_len: int, w: u32, h: u32, fmt: DxtFormat) -> bool {
    &&& w + 3 <= u32::MAX
    &&& h + 3 <= u32::MAX
    &&& packed_len(w as int, h as int, fmt) <= u32::MAX
    &&& w > 0 && h > 0 ==> 4 * w * h - 4 <= u32::MAX && pixels_len >= 4 * w * h
}

/// Reads texel `k` of block (`bx`, `by`), or zeros outside the image.
fn source_rgba(pixels: &[u8], width: u32, height: u32, bx: u32, by: u32, k: u32) -> (r: (
    u8,
    u8,
    u8,
    u8,
))
    requires
        k < 16,
        bx * 4 + 3 <= u32::MAX,
        by * 4 + 3 <= u32::MAX,
        width > 0 && height > 0 ==> 4 * width * height - 4 <= u32::MAX && pixels@.len() >= 4
            * width * height,
    ensures
        r.0 == source_texel(pixels@, width as int, height as int, bx as int, by as int, k as int, 0),
        r.1 == source_texel(pixels@, width as int, height as int, bx as int, by as int, k as int, 1),
        r.2 == source_texel(pixels@, width as int, height as int, bx as int, by as int, k as int, 2),
        r.3 == source_texel(pixels@, width as int, height as int, bx as int, by as int, k as int, 3),
{
    let px = bx * 4 + k % 4;
    let py = by * 4 + k / 4;
    if px < width && py < height {
        proof {
            lemma_pix_bounds(width as int, height as int, px as int, py as int, 3);
            assert(4 * (py * width + px) <= 4 * width * height - 4);
        }
        let src = ((py * width + px) * 4) as usize;
        (pixels[src], pixels[src + 1], pixels[src + 2], pixels[src + 3])
    } else {
        (0, 0, 0, 0)
    }
}

/// Packs an 8-bit RGB colour as RGB565, keeping the top 5, 6 and 5 bits.
pub fn rgb_to_rgb565(r: u8, g: u8, b: u8) -> (c: u16)
    ensures
        c == pack565(r as int, g as int, b as int),
{
    (r as u16 / 8) * 2048 + (g as u16 / 4) * 32 + b as u16 / 8
}

/// Writes the colour block encoded for block (`block_x`, `block_y`) at `offset`.
fn encode_dxt1_block(
    pixels: &[u8],
    width: u32,
    height: u32,
    block_x: u32,
    block_y: u32,
    output: &mut Vec<u8>,
    offset: usize,
)
    requires
        offset + 8 <= old(output)@.len(),
        block_x * 4 + 3 <= u32::MAX,
        block_y * 4 + 3 <= u32::MAX,
        width > 0 && height > 0 ==> 4 * width * height - 4 <= u32::MAX && pixels@.len() >= 4
            * width * height,
    ensures
        final(output)@.len() == old(output)@.len(),
        forall|i: int|
            0 <= i < old(output)@.len() ==> #[trigger] final(output)@[i] == if offset <= i < offset
                + 8 {
                color_block_byte(
                    pixels@,
                    width as int,
                    height as int,
                    block_x as int,
                    block_y as int,
                    i - offset,
                )
            } else {
                old(output)@[i]
            },
{
    let ghost p = pixels@;
    let ghost w = width as int;
    let ghost h = height as int;
    let ghost bx = block_x as int;
    let ghost by = block_y as int;
    let first = source_rgba(pixels, width, height, block_x, block_y, 0);
    let second = source_rgba(pixels, width, height, block_x, block_y, 1);
    let last = source_rgba(pixels, width, height, block_x, block_y, 15);
    let c0 = rgb_to_rgb565(first.0, first.1, first.2);
    let c1 = rgb_to_rgb565(last.0, last.1, last.2);
    let t0 = ((2 * first.0 as u32 + second.0 as u32) / 3) as u8;
    let t1 = ((2 * first.1 as u32 + second.1 as u32) / 3) as u8;
    let t2 = ((2 * first.2 as u32 + second.2 as u32) / 3) as u8;
    let mut indices: u32 = 0;
    let mut i: u32 = 0;
    while i < 16
        invariant
            i <= 16,
            p == pixels@,
            w == width,
            h == height,
            bx == block_x,
            by == block_y,
            block_x * 4 + 3 <= u32::MAX,
            block_y * 4 + 3 <= u32::MAX,
            width > 0 && height > 0 ==> 4 * width * height - 4 <= u32::MAX && pixels@.len() >= 4
                * width * height,
            c0 == endpoint(p, w, h, bx, by, 0),
            c1 == endpoint(p, w, h, bx, by, 1),
            first.0 == source_texel(p, w, h, bx, by, 0, 0),
            first.1 == source_texel(p, w, h, bx, by, 0, 1),
            first.2 == source_texel(p, w, h, bx, by, 0, 2),
            first.3 == source_texel(p, w, h, bx, by, 0, 3),
            second.0 == source_texel(p, w, h, bx, by, 1, 0),
            second.1 == source_texel(p, w, h, bx, by, 1, 1),
            second.2 == source_texel(p, w, h, bx, by, 1, 2),
            second.3 == source_texel(p, w, h, bx, by, 1, 3),
            t0 == third_channel(p, w, h, bx, by, 0),
            t1 == third_channel(p, w, h, bx, by, 1),
            t2 == third_channel(p, w, h, bx, by, 2),
            indices == packed_indices(p, w, h, bx, by, i as nat),
        decreases 16 - i,
    {
        let c = source_rgba(pixels, width, height, block_x, block_y, i);
        let idx: u32 = if c0 > c1 {
            if c.0 == first.0 && c.1 == first.1 && c.2 == first.2 && c.3 == first.3 {
                0
            } else if c.0 == second.0 && c.1 == second.1 && c.2 == second.2 && c.3 == second.3 {
                1
            } else if c.0 == t0 && c.1 == t1 && c.2 == t2 {
                2
            } else {
                3
            }
        } else {
            0
        };
        assert(idx == chosen_index(p, w, h, bx, by, i as int));
        indices = indices | (idx << (i * 2));
        i += 1;
    }
    let ghost start = output@;
    let _n = output.len();
    output.set(offset, (c0 % 256) as u8);
    output.set(offset + 1, (c0 / 256) as u8);
    output.set(offset + 2, (c1 % 256) as u8);
    output.set(offset + 3, (c1 / 256) as u8);
    output.set(offset + 4, indices as u8);
    output.set(offset + 5, (indices >> 8) as u8);
    output.set(offset + 6, (indices >> 16) as u8);
    output.set(offset + 7, (indices >> 24) as u8);
    assert forall|i: int| 0 <= i < start.len() implies #[trigger] output@[i] == if offset <= i
        < offset + 8 {
        color_block_byte(p, w, h, bx, by, i - offset)
    } else {
        start[i]
    } by {
        if i == offset + 4 {
            assert((8 * (i - offset - 4)) as u32 == 0);
            assert(indices >> 0u32 == indices) by (bit_vector);
        }
    }
}

/// Writes the DXT5 block encoded for block (`block_x`, `block_y`) at `offset`.
fn encode_dxt5_block(
    pixels: &[u8],
    width: u32,
    height: u32,
    block_x: u32,
    block_y: u32,
    output: &mut Vec<u8>,
    offset: usize,
)
    requires
        offset + 16 <= old(output)@.len(),
        block_x * 4 + 3 <= u32::MAX,
        block_y * 4 + 3 <= u32::MAX,
        width > 0 && height > 0 ==> 4 * width * height - 4 <= u32::MAX && pixels@.len() >= 4
            * width * height,
    ensures
        final(output)@.len() == old(output)@.len(),
        forall|i: int|
            0 <= i < old(output)@.len() ==> #[trigger] final(output)@[i] == if offset <= i < offset
                + 16 {
                encoded_byte(
                    pixels@,
                    width as int,
                    height as int,
                    DxtFormat::Dxt5,
                    block_x as int,
                    block_y as int,
                    i - offset,
                )
            } else {
                old(output)@[i]
            },
{
    let ghost p = pixels@;
    let ghost w = width as int;
    let ghost h = height as int;
    let ghost bx = block_x as int;
    let ghost by = block_y as int;
    let first = source_rgba(pixels, width, height, block_x, block_y, 0);
    let last = source_rgba(pixels, width, height, block_x, block_y, 15);
    let mid = (first.3 as u32 + last.3 as u32) / 2;
    let mut bits: u64 = 0;
    let mut i: u64 = 0;
    while i < 16
        invariant
            i <= 16,
            p == pixels@,
            w == width,
            h == height,
            bx == block_x,
            by == block_y,
            block_x * 4 + 3 <= u32::MAX,
            block_y * 4 + 3 <= u32::MAX,
            width > 0 && height > 0 ==> 4 * width * height - 4 <= u32::MAX && pixels@.len() >= 4
                * width * height,
            mid == (source_texel(p, w, h, bx, by, 0, 3) + source_texel(p, w, h, bx, by, 15, 3)) / 2,
            bits == packed_alpha_codes(p, w, h, bx, by, i as nat),
        decreases 16 - i,
    {
        let c = source_rgba(pixels, width, height, block_x, block_y, i as u32);
        let code: u64 = if c.3 as u32 > mid {
            0
        } else {
            1
        };
        assert(code == chosen_alpha_code(p, w, h, bx, by, i as int));
        bits = bits | (code << (i * 3));
        i += 1;
    }
    let ghost start = output@;
    let n = output.len();
    output.set(offset, first.3);
    output.set(offset + 1, last.3);
    let mut j: usize = 0;
    while j < 6
        invariant
            j <= 6,
            offset + 16 <= start.len(),
            n == start.len(),
            output@.len() == start.len(),
            bits == packed_alpha_codes(p, w, h, bx, by, 16),
            output@[offset as int] == first.3,
            output@[offset + 1] == last.3,
            forall|i: int|
                0 <= i < start.len() && !(offset <= i < offset + 2 + j) ==> #[trigger] output@[i]
                    == start[i],
            forall|i: int|
                offset + 2 <= i < offset + 2 + j ==> #[trigger] output@[i] == alpha_block_byte(
                    p,
                    w,
                    h,
                    bx,
                    by,
                    i - offset,
                ),
        decreases 6 - j,
    {
        output.set(offset + 2 + j, (bits >> (j as u64 * 8)) as u8);
        j += 1;
    }
    let ghost alpha_done = output@;
    encode_dxt1_block(pixels, width, height, block_x, block_y, output, offset + 8);
    assert forall|i: int| 0 <= i < start.len() implies #[trigger] output@[i] == if offset <= i
        < offset + 16 {
        encoded_byte(p, w, h, DxtFormat::Dxt5, bx, by, i - offset)
    } else {
        start[i]
    } by {
        if offset <= i < offset + 8 {
            assert(output@[i] == alpha_done[i]);
        }
    }
}

/// Encodes an RGBA image of `width` x `height` pixels as DXT1 or DXT5 blocks.
pub fn compress(pixels: &[u8], width: u32, height: u32, format: DxtFormat) -> (out: Vec<u8>)
    requires
        compress_sizes_ok(pixels@.len() as int, width, height, format),
    ensures
        out@.len() == packed_len(width as int, height as int, format),
        forall|bx: int, by: int, j: int|
            #![trigger out@[(by * blocks_for(width as int) + bx) * format.bytes_per_block() + j]]
            0 <= bx < blocks_for(width as int) && 0 <= by < blocks_for(height as int) && 0 <= j
                < format.bytes_per_block() ==> out@[(by * blocks_for(width as int) + bx)
                * format.bytes_per_block() + j] == encoded_byte(
                pixels@,
                width as int,
                height as int,
                format,
                bx,
                by,
                j,
            ),
        dxt5_alphas_fit(out@, width, height, format),
{
    let blocks_x = (width + 3) / 4;
    let blocks_y = (height + 3) / 4;
    let block_size = format.block_size();
    let ghost bs = format.bytes_per_block() as int;
    let total = (blocks_x * blocks_y * block_size as u32) as usize;
    let mut output: Vec<u8> = Vec::new();
    while output.len() < total
        invariant
            output@.len() <= total,
        decreases total - output@.len(),
    {
        output.push(0);
    }
    let ghost p = pixels@;
    let ghost w = width as int;
    let ghost h = height as int;
    let mut idx: usize = 0;
    let mut by: u32 = 0;
    while by < blocks_y
        invariant
            p == pixels@,
            w == width,
            h == height,
            bs == block_size,
            bs == format.bytes_per_block(),
            blocks_x == blocks_for(w),
            blocks_y == blocks_for(h),
            width + 3 <= u32::MAX,
            height + 3 <= u32::MAX,
            total == blocks_x * blocks_y * bs,
            output@.len() == total,
            by <= blocks_y,
            idx == by * blocks_x * bs,
            width > 0 && height > 0 ==> 4 * width * height - 4 <= u32::MAX && pixels@.len() >= 4
                * width * height,
            forall|bx2: int, by2: int, j: int|
                #![trigger output@[(by2 * blocks_x + bx2) * bs + j]]
                0 <= bx2 < blocks_x && 0 <= by2 < by && 0 <= j < bs ==> output@[(by2 * blocks_x
                    + bx2) * bs + j] == encoded_byte(p, w, h, format, bx2, by2, j),
        decreases blocks_y - by,
    {
        let mut bx: u32 = 0;
        while bx < blocks_x
            invariant
                p == pixels@,
                w == width,
                h == height,
                bs == block_size,
                bs == format.bytes_per_block(),
                blocks_x == blocks_for(w),
                blocks_y == blocks_for(h),
                width + 3 <= u32::MAX,
                height + 3 <= u32::MAX,
                total == blocks_x * blocks_y * bs,
                output@.len() == total,
                by < blocks_y,
                bx <= blocks_x,
                idx == (by * blocks_x + bx) * bs,
                width > 0 && height > 0 ==> 4 * width * height - 4 <= u32::MAX && pixels@.len()
                    >= 4 * width * height,
                forall|bx2: int, by2: int, j: int|
                    #![trigger output@[(by2 * blocks_x + bx2) * bs + j]]
                    0 <= bx2 < blocks_x && 0 <= by2 < blocks_y && 0 <= j < bs && (by2 < by || (by2
                        == by && bx2 < bx)) ==> output@[(by2 * blocks_x + bx2) * bs + j]
                        == encoded_byte(p, w, h, format, bx2, by2, j),
            decreases blocks_x - bx,
        {
            proof {
                assert((by * blocks_x + bx + 1) * bs <= blocks_x * blocks_y * bs) by (nonlinear_arith)
                    requires
                        0 <= bx < blocks_x,
                        0 <= by < blocks_y,
                        0 <= bs,
                ;
                assert(idx + bs == (by * blocks_x + bx + 1) * bs) by (nonlinear_arith)
                    requires
                        idx == (by * blocks_x + bx) * bs,
                ;
            }
            let ghost before = output@;
            match format {
                DxtFormat::Dxt1 => {
                    encode_dxt1_block(pixels, width, height, bx, by, &mut output, idx);
                },
                DxtFormat::Dxt5 => {
                    encode_dxt5_block(pixels, width, height, bx, by, &mut output, idx);
                },
            }
            proof {
                assert forall|bx2: int, by2: int, j: int|
                    0 <= bx2 < blocks_x && 0 <= by2 < blocks_y && 0 <= j < bs && (by2 < by || (by2
                        == by && bx2 < bx + 1)) implies #[trigger] output@[(by2 * blocks_x + bx2)
                    * bs + j] == encoded_byte(p, w, h, format, bx2, by2, j) by {
                    lemma_block_slot(blocks_x as int, blocks_y as int, bs, bx2, by2, j);
                    if by2 == by && bx2 == bx {
                    } else {
                        lemma_block_slots_disjoint(blocks_x as int, bs, bx2, by2, j, bx as int, by as int);
                        assert(output@[(by2 * blocks_x + bx2) * bs + j] == before[(by2 * blocks_x + bx2) * bs + j]);
                    }
                }
            }
            idx = idx + block_size;
            bx += 1;
        }
        proof {
            assert(idx == (by + 1) * blocks_x * bs) by (nonlinear_arith)
                requires
                    idx == (by * blocks_x + blocks_x) * bs,
            ;
        }
        by += 1;
    }
    proof {
        compressed_alphas_fit(pixels@, width, height, format, output@);
    }
    output
}

proof fn lemma_block_slot(bxn: int, byn: int, bs: int, bx: int, by: int, j: int)
    requires
        0 <= bx < bxn,
        0 <= by < byn,
        0 <= j < bs,
    ensures
        0 <= (by * bxn + bx) * bs + j < bxn * byn * bs,
{
    assert(0 <= (by * bxn + bx) * bs + j < bxn * byn * bs) by (nonlinear_arith)
        requires
            0 <= bx < bxn,
            0 <= by < byn,
            0 <= j < bs,
    ;
}

proof fn lemma_block_slots_disjoint(bxn: int, bs: int, bx2: int, by2: int, j: int, bx: int, by: int)
    requires
        0 <= bx < bxn,
        0 <= bx2 < bxn,
        0 <= by,
        0 <= by2,
        0 <= j < bs,
        bx2 != bx || by2 != by,
    ensures
        !((by * bxn + bx) * bs <= (by2 * bxn + bx2) * bs + j < (by * bxn + bx) * bs + bs),
{
    let b = by * bxn + bx;
    let b2 = by2 * bxn + bx2;
    assert(b != b2) by (nonlinear_arith)
        requires
            0 <= bx < bxn,
            0 <= bx2 < bxn,
            0 <= by,
            0 <= by2,
            bx2 != bx || by2 != by,
            b == by * bxn + bx,
            b2 == by2 * bxn + bx2,
    ;
    if b < b2 {
        assert(b * bs + bs <= b2 * bs) by (nonlinear_arith)
            requires
                b < b2,
                0 <= bs,
        ;
    } else {
        assert(b2 * bs + bs <= b * bs) by (nonlinear_arith)
            requires
                b2 < b,
                0 <= bs,
        ;
    }
}


// ---------------------------------------------------------------- solid colours

/// A `w` x `h` RGBA image every pixel of which is `rgba`.
pub open spec fn solid_image(p: Seq<u8>, w: int, h: int, rgba: Seq<u8>) -> bool {
    &&& rgba.len() == 4
    &&& p.len() == 4 * w * h
    &&& forall|x: int, y: int, ch: int|
        #![trigger p[pix(w, x, y, ch)]]
        0 <= x < w && 0 <= y < h && 0 <= ch < 4 ==> p[pix(w, x, y, ch)] == rgba[ch]
}

/// Channel `ch` of the colour `rgba` after it is stored in a block: red, green and
/// blue keep their top 5, 6 and 5 bits (widened back to 8); alpha is kept by DXT5
/// and is opaque in DXT1.
pub open spec fn stored_solid(rgba: Seq<u8>, fmt: DxtFormat, ch: int) -> int {
    if ch < 3 {
        unpack565(pack565(rgba[0] as int, rgba[1] as int, rgba[2] as int), ch)
    } else if fmt == DxtFormat::Dxt1 {
        255
    } else {
        rgba[3] as int
    }
}

proof fn lemma_index_step(acc: u32, v: u32, n: u32, k: u32)
    by (bit_vector)
    requires
        n < 16,
        k <= n,
        v < 4,
        acc < (1u32 << (2 * n)),
    ensures
        ((acc | (v << (2 * n))) >> (2 * k)) & 3 == if k == n {
            v
        } else {
            (acc >> (2 * k)) & 3
        },
        n < 15 ==> (acc | (v << (2 * n))) < (1u32 << (2 * (n + 1))),
{
}

proof fn lemma_code_step(acc: u64, v: u64, n: u64, k: u64)
    by (bit_vector)
    requires
        n < 16,
        k <= n,
        v < 8,
        acc < (1u64 << (3 * n)),
    ensures
        ((acc | (v << (3 * n))) >> (3 * k)) & 7 == if k == n {
            v
        } else {
            (acc >> (3 * k)) & 7
        },
        (acc | (v << (3 * n))) < (1u64 << (3 * (n + 1))),
{
}

proof fn lemma_u32_bytes(v: u32)
    by (bit_vector)
    ensures
        (v as u8) as u32 + ((v >> 8u32) as u8) as u32 * 0x100 + ((v >> 16u32) as u8) as u32
            * 0x10000 + ((v >> 24u32) as u8) as u32 * 0x1000000 == v,
{
}

proof fn lemma_u48_bytes(v: u64)
    by (bit_vector)
    requires
        v < 0x1_0000_0000_0000,
    ensures
        (v as u8) as u64 + ((v >> 8u64) as u8) as u64 * 0x100 + ((v >> 16u64) as u8) as u64
            * 0x10000 + ((v >> 24u64) as u8) as u64 * 0x1000000 + (((v >> 32u64) as u8) as u64
            + ((v >> 40u64) as u8) as u64 * 0x100) * 0x1_0000_0000 == v,
{
}

proof fn lemma_packed_indices(p: Seq<u8>, w: int, h: int, bx: int, by: int, n: nat)
    requires
        n <= 16,
    ensures
        n < 16 ==> packed_indices(p, w, h, bx, by, n) < (1u32 << ((2 * n) as u32)),
        forall|k: int|
            0 <= k < n ==> #[trigger] color_index(packed_indices(p, w, h, bx, by, n), k)
                == chosen_index(p, w, h, bx, by, k),
    decreases n,
{
    if n == 0 {
        assert(0u32 < (1u32 << 0u32)) by (bit_vector);
    } else {
        let m = (n - 1) as nat;
        lemma_packed_indices(p, w, h, bx, by, m);
        let acc = packed_indices(p, w, h, bx, by, m);
        let v = chosen_index(p, w, h, bx, by, m as int);
        assert(v < 4);
        assert((2 * m) as u32 == 2 * (m as u32));
        lemma_index_step(acc, v, m as u32, m as u32);
        let next = packed_indices(p, w, h, bx, by, n);
        assert(next == acc | (v << (2 * (m as u32))));
        assert forall|k: int| 0 <= k < n implies #[trigger] color_index(next, k) == chosen_index(
            p,
            w,
            h,
            bx,
            by,
            k,
        ) by {
            assert((2 * k) as u32 == 2 * (k as u32));
            lemma_index_step(acc, v, m as u32, k as u32);
            if k < m {
                assert(color_index(acc, k) == chosen_index(p, w, h, bx, by, k));
            }
        }
        if n < 16 {
            assert((2 * n) as u32 == 2 * ((m as u32) + 1));
        }
    }
}

proof fn lemma_packed_alpha_codes(p: Seq<u8>, w: int, h: int, bx: int, by: int, n: nat)
    requires
        n <= 16,
    ensures
        packed_alpha_codes(p, w, h, bx, by, n) < (1u64 << ((3 * n) as u64)),
        forall|k: int|
            0 <= k < n ==> #[trigger] alpha_code(packed_alpha_codes(p, w, h, bx, by, n), k)
                == chosen_alpha_code(p, w, h, bx, by, k),
    decreases n,
{
    if n == 0 {
        assert(0u64 < (1u64 << 0u64)) by (bit_vector);
    } else {
        let m = (n - 1) as nat;
        lemma_packed_alpha_codes(p, w, h, bx, by, m);
        let acc = packed_alpha_codes(p, w, h, bx, by, m);
        let v = chosen_alpha_code(p, w, h, bx, by, m as int);
        assert((3 * m) as u64 == 3 * (m as u64));
        lemma_code_step(acc, v, m as u64, m as u64);
        let next = packed_alpha_codes(p, w, h, bx, by, n);
        assert(next == acc | (v << (3 * (m as u64))));
        assert forall|k: int| 0 <= k < n implies #[trigger] alpha_code(next, k)
            == chosen_alpha_code(p, w, h, bx, by, k) by {
            assert((3 * k) as u64 == 3 * (k as u64));
            lemma_code_step(acc, v, m as u64, k as u64);
            if k < m {
                assert(alpha_code(acc, k) == chosen_alpha_code(p, w, h, bx, by, k));
            }
        }
        assert((3 * n) as u64 == 3 * ((m as u64) + 1));
    }
}

/// Decoding the colour block encoded for block (`bx`, `by`) at `base` gives,
/// for each texel inside the image, the palette entry of its chosen index.
proof fn lemma_color_block_decodes(
    packed: Seq<u8>,
    base: int,
    p: Seq<u8>,
    w: int,
    h: int,
    bx: int,
    by: int,
)
    requires
        0 <= base,
        base + 8 <= packed.len(),
        forall|j: int| 0 <= j < 8 ==> #[trigger] packed[base + j] == color_block_byte(p, w, h, bx, by, j),
        0 <= endpoint(p, w, h, bx, by, 0) < 0x10000,
        0 <= endpoint(p, w, h, bx, by, 1) < 0x10000,
    ensures
        le16(packed, base) == endpoint(p, w, h, bx, by, 0),
        le16(packed, base + 2) == endpoint(p, w, h, bx, by, 1),
        forall|k: int|
            0 <= k < 16 ==> #[trigger] color_index(le32(packed, base + 4) as u32, k)
                == chosen_index(p, w, h, bx, by, k),
{
    let ix = packed_indices(p, w, h, bx, by, 16);
    assert(packed[base + 0] == color_block_byte(p, w, h, bx, by, 0));
    assert(packed[base + 1] == color_block_byte(p, w, h, bx, by, 1));
    assert(packed[base + 2] == color_block_byte(p, w, h, bx, by, 2));
    assert(packed[base + 3] == color_block_byte(p, w, h, bx, by, 3));
    assert(packed[base + 4] == color_block_byte(p, w, h, bx, by, 4));
    assert(packed[base + 5] == color_block_byte(p, w, h, bx, by, 5));
    assert(packed[base + 6] == color_block_byte(p, w, h, bx, by, 6));
    assert(packed[base + 7] == color_block_byte(p, w, h, bx, by, 7));
    assert(packed[base + 4] == (ix >> 0u32) as u8);
    assert(ix >> 0u32 == ix) by (bit_vector);
    assert(packed[base + 5] == (ix >> 8u32) as u8);
    assert(packed[base + 6] == (ix >> 16u32) as u8);
    assert(packed[base + 7] == (ix >> 24u32) as u8);
    lemma_u32_bytes(ix);
    assert(le32(packed, base + 4) == ix);
    lemma_packed_indices(p, w, h, bx, by, 16);
}

/// Compressing an image of one colour and decompressing the result gives every
/// pixel that colour, with red, green and blue reduced to RGB565 precision and,
/// in DXT1, alpha opaque. (`packed` is any buffer holding exactly what `compress`
/// states it returns.)
pub proof fn solid_color_round_trip(
    p: Seq<u8>,
    w: u32,
    h: u32,
    fmt: DxtFormat,
    rgba: Seq<u8>,
    packed: Seq<u8>,
)
    requires
        compress_sizes_ok(p.len() as int, w, h, fmt),
        solid_image(p, w as int, h as int, rgba),
        packed.len() == packed_len(w as int, h as int, fmt),
        forall|bx: int, by: int, j: int|
            #![trigger packed[(by * blocks_for(w as int) + bx) * fmt.bytes_per_block() + j]]
            0 <= bx < blocks_for(w as int) && 0 <= by < blocks_for(h as int) && 0 <= j
                < fmt.bytes_per_block() ==> packed[(by * blocks_for(w as int) + bx)
                * fmt.bytes_per_block() + j] == encoded_byte(p, w as int, h as int, fmt, bx, by, j),
    ensures
        forall|x: int, y: int, ch: int|
            0 <= x < w && 0 <= y < h && 0 <= ch < 4 ==> #[trigger] texel(packed, w as int, fmt, x, y, ch)
                == stored_solid(rgba, fmt, ch),
{
    let wi = w as int;
    let hi = h as int;
    let bxn = blocks_for(wi);
    let bs = fmt.bytes_per_block() as int;
    assert forall|x: int, y: int, ch: int|
        0 <= x < w && 0 <= y < h && 0 <= ch < 4 implies #[trigger] texel(packed, wi, fmt, x, y, ch)
        == stored_solid(rgba, fmt, ch) by {
        let bx = x / 4;
        let by = y / 4;
        let k = (y % 4) * 4 + x % 4;
        let off = (by * bxn + bx) * bs;
        assert(0 <= bx < bxn && 0 <= by < blocks_for(hi));
        lemma_block_slot(bxn, blocks_for(hi), bs, bx, by, 0);
        lemma_block_slot(bxn, blocks_for(hi), bs, bx, by, bs - 1);
        assert(off + bs <= packed.len());
        // texel 0 of the block and texel k both lie inside the image
        assert(4 * bx + k % 4 == x && 4 * by + k / 4 == y);
        assert(source_texel(p, wi, hi, bx, by, k, 0) == rgba[0]);
        assert(source_texel(p, wi, hi, bx, by, k, 1) == rgba[1]);
        assert(source_texel(p, wi, hi, bx, by, k, 2) == rgba[2]);
        assert(source_texel(p, wi, hi, bx, by, k, 3) == rgba[3]);
        assert(source_texel(p, wi, hi, bx, by, 0, 0) == rgba[0]);
        assert(source_texel(p, wi, hi, bx, by, 0, 1) == rgba[1]);
        assert(source_texel(p, wi, hi, bx, by, 0, 2) == rgba[2]);
        assert(source_texel(p, wi, hi, bx, by, 0, 3) == rgba[3]);
        assert(same_texel(p, wi, hi, bx, by, k, 0));
        let c0 = endpoint(p, wi, hi, bx, by, 0);
        let c1 = endpoint(p, wi, hi, bx, by, 1);
        assert(c0 == pack565(rgba[0] as int, rgba[1] as int, rgba[2] as int));
        let in15 = 4 * bx + 3 < wi && 4 * by + 3 < hi;
        if in15 {
            assert(source_texel(p, wi, hi, bx, by, 15, 0) == rgba[0]);
            assert(source_texel(p, wi, hi, bx, by, 15, 1) == rgba[1]);
            assert(source_texel(p, wi, hi, bx, by, 15, 2) == rgba[2]);
            assert(source_texel(p, wi, hi, bx, by, 15, 3) == rgba[3]);
            assert(c1 == c0);
        } else {
            assert(source_texel(p, wi, hi, bx, by, 15, 0) == 0);
            assert(source_texel(p, wi, hi, bx, by, 15, 3) == 0);
            assert(c1 == 0);
        }
        assert(chosen_index(p, wi, hi, bx, by, k) == 0);
        let cbase = if fmt == DxtFormat::Dxt1 {
            off
        } else {
            off + 8
        };
        assert forall|j: int| 0 <= j < 8 implies #[trigger] packed[cbase + j] == color_block_byte(
            p,
            wi,
            hi,
            bx,
            by,
            j,
        ) by {
            let jj = if fmt == DxtFormat::Dxt1 {
                j
            } else {
                j + 8
            };
            assert(packed[(by * bxn + bx) * bs + jj] == encoded_byte(p, wi, hi, fmt, bx, by, jj));
        }
        lemma_color_block_decodes(packed, cbase, p, wi, hi, bx, by);
        assert(texel(packed, wi, fmt, x, y, ch) == block_texel(packed, off, fmt, k, ch));
        if fmt == DxtFormat::Dxt5 && ch == 3 {
            assert forall|j: int| 0 <= j < 8 implies #[trigger] packed[off + j] == alpha_block_byte(
                p,
                wi,
                hi,
                bx,
                by,
                j,
            ) by {
                assert(packed[(by * bxn + bx) * bs + j] == encoded_byte(p, wi, hi, fmt, bx, by, j));
            }
            let codes = packed_alpha_codes(p, wi, hi, bx, by, 16);
            lemma_packed_alpha_codes(p, wi, hi, bx, by, 16);
            assert(packed[off + 0] == alpha_block_byte(p, wi, hi, bx, by, 0));
            assert(packed[off + 1] == alpha_block_byte(p, wi, hi, bx, by, 1));
            assert(packed[off + 2] == alpha_block_byte(p, wi, hi, bx, by, 2));
            assert(packed[off + 3] == alpha_block_byte(p, wi, hi, bx, by, 3));
            assert(packed[off + 4] == alpha_block_byte(p, wi, hi, bx, by, 4));
            assert(packed[off + 5] == alpha_block_byte(p, wi, hi, bx, by, 5));
            assert(packed[off + 6] == alpha_block_byte(p, wi, hi, bx, by, 6));
            assert(packed[off + 7] == alpha_block_byte(p, wi, hi, bx, by, 7));
            assert(codes >> 0u64 == codes) by (bit_vector);
            assert((1u64 << 48u64) == 0x1_0000_0000_0000u64) by (bit_vector);
            lemma_u48_bytes(codes);
            assert(alpha_bits(packed, off) == codes);
            let a = rgba[3] as int;
            let a1 = source_texel(p, wi, hi, bx, by, 15, 3);
            assert(alpha_code(codes, k) == chosen_alpha_code(p, wi, hi, bx, by, k));
            if in15 {
                assert(chosen_alpha_code(p, wi, hi, bx, by, k) == 1);
            } else if a > 0 {
                assert(chosen_alpha_code(p, wi, hi, bx, by, k) == 0);
            } else {
                assert(chosen_alpha_code(p, wi, hi, bx, by, k) == 1);
            }
        } else {
            let cb = if fmt == DxtFormat::Dxt1 {
                off
            } else {
                off + 8
            };
            assert(block_texel(packed, off, fmt, k, ch) == color_texel(packed, cb, k, ch));
            assert(color_index(le32(packed, cb + 4) as u32, k) == 0);
        }
    }
}


/// Widening an RGB565 colour to 8-bit channels (alpha opaque) and packing it
/// again gives the same colour.
pub proof fn rgb565_round_trip(c: u16)
    ensures
        pack565(unpack565(c as int, 0), unpack565(c as int, 1), unpack565(c as int, 2)) == c,
        unpack565(c as int, 3) == 255,
{
    let r = c as int / 2048;
    let g = (c as int / 32) % 64;
    let b = c as int % 32;
    assert(expand5(r) / 8 == r);
    assert(expand6(g) / 4 == g);
    assert(expand5(b) / 8 == b);
}

/// Every index below `4 * w * h` is channel `i % 4` of the pixel it falls in.
proof fn lemma_pix_cover(w: int, h: int, i: int)
    requires
        w > 0,
        h > 0,
        0 <= i < 4 * w * h,
    ensures
        0 <= (i / 4) % w < w,
        0 <= (i / 4) / w < h,
        i == pix(w, (i / 4) % w, (i / 4) / w, i % 4),
{
    let q = i / 4;
    assert(0 <= q < w * h) by (nonlinear_arith)
        requires
            q == i / 4,
            0 <= i < 4 * w * h,
    ;
    assert(0 <= q / w < h) by (nonlinear_arith)
        requires
            0 <= q < w * h,
            w > 0,
    ;
    assert(q == (q / w) * w + q % w) by (nonlinear_arith)
        requires
            w > 0,
    ;
    assert(i == 4 * q + i % 4);
}

/// A colour whose red, green and blue survive RGB565 and whose alpha the format
/// keeps (any alpha in DXT5, opaque in DXT1).
pub open spec fn representable(rgba: Seq<u8>, fmt: DxtFormat) -> bool {
    &&& forall|ch: int| 0 <= ch < 3 ==> #[trigger] stored_solid(rgba, fmt, ch) == rgba[ch] as int
    &&& (fmt == DxtFormat::Dxt5 || rgba[3] == 255)
}

/// Compressing an image of one representable colour and decompressing the
/// result gives the image back. (`packed` is any buffer holding exactly what
/// `compress` states it returns, which `decompress` accepts by
/// `compressed_alphas_fit` where the sizes suit it; `out` is any buffer that
/// `decompress` states it returns for `packed`.)
pub proof fn representable_solid_image_round_trips(
    p: Seq<u8>,
    w: u32,
    h: u32,
    fmt: DxtFormat,
    rgba: Seq<u8>,
    packed: Seq<u8>,
    out: Seq<u8>,
)
    requires
        compress_sizes_ok(p.len() as int, w, h, fmt),
        solid_image(p, w as int, h as int, rgba),
        representable(rgba, fmt),
        packed.len() == packed_len(w as int, h as int, fmt),
        forall|bx: int, by: int, j: int|
            #![trigger packed[(by * blocks_for(w as int) + bx) * fmt.bytes_per_block() + j]]
            0 <= bx < blocks_for(w as int) && 0 <= by < blocks_for(h as int) && 0 <= j
                < fmt.bytes_per_block() ==> packed[(by * blocks_for(w as int) + bx)
                * fmt.bytes_per_block() + j] == encoded_byte(p, w as int, h as int, fmt, bx, by, j),
        out.len() == 4 * w * h,
        forall|x: int, y: int, ch: int|
            #![trigger out[pix(w as int, x, y, ch)]]
            0 <= x < w && 0 <= y < h && 0 <= ch < 4 ==> out[pix(w as int, x, y, ch)] == texel(
                packed,
                w as int,
                fmt,
                x,
                y,
                ch,
            ),
    ensures
        out == p,
{
    solid_color_round_trip(p, w, h, fmt, rgba, packed);
    assert forall|i: int| 0 <= i < out.len() implies out[i] == p[i] by {
        let wi = w as int;
        let hi = h as int;
        assert(wi > 0 && hi > 0) by (nonlinear_arith)
            requires
                0 <= i < 4 * wi * hi,
                wi >= 0,
                hi >= 0,
        ;
        lemma_pix_cover(wi, hi, i);
        let x = (i / 4) % wi;
        let y = (i / 4) / wi;
        let ch = i % 4;
        assert(out[pix(wi, x, y, ch)] == texel(packed, wi, fmt, x, y, ch));
        assert(p[pix(wi, x, y, ch)] == rgba[ch]);
        if ch < 3 {
            assert(stored_solid(rgba, fmt, ch) == rgba[ch] as int);
        }
    }
    assert(out =~= p);
}

/// What the encoder writes always decodes: every alpha code it chooses selects
/// an endpoint alpha, so no interpolation sum can leave a byte. (`packed` is
/// any buffer holding exactly what `compress` states it returns.)
pub proof fn compressed_alphas_fit(p: Seq<u8>, w: u32, h: u32, fmt: DxtFormat, packed: Seq<u8>)
    requires
        packed.len() == packed_len(w as int, h as int, fmt),
        forall|bx: int, by: int, j: int|
            #![trigger packed[(by * blocks_for(w as int) + bx) * fmt.bytes_per_block() + j]]
            0 <= bx < blocks_for(w as int) && 0 <= by < blocks_for(h as int) && 0 <= j
                < fmt.bytes_per_block() ==> packed[(by * blocks_for(w as int) + bx)
                * fmt.bytes_per_block() + j] == encoded_byte(p, w as int, h as int, fmt, bx, by, j),
    ensures
        dxt5_alphas_fit(packed, w, h, fmt),
{
    if fmt == DxtFormat::Dxt5 {
        let wi = w as int;
        let hi = h as int;
        let bxn = blocks_for(wi);
        let byn = blocks_for(hi);
        assert forall|b: int, k: int|
            0 <= b < bxn * byn && 0 <= k < 16 implies alpha_fits(
            packed[b * 16] as int,
            packed[b * 16 + 1] as int,
            #[trigger] alpha_code(alpha_bits(packed, b * 16), k),
        ) by {
            assert(bxn > 0) by (nonlinear_arith)
                requires
                    0 <= b < bxn * byn,
                    byn >= 0,
            ;
            let bx = b % bxn;
            let by = b / bxn;
            assert(b == by * bxn + bx && 0 <= by < byn) by (nonlinear_arith)
                requires
                    0 <= b < bxn * byn,
                    bxn > 0,
                    bx == b % bxn,
                    by == b / bxn,
            ;
            let off = b * 16;
            assert forall|j: int| 0 <= j < 8 implies #[trigger] packed[off + j] == alpha_block_byte(
                p,
                wi,
                hi,
                bx,
                by,
                j,
            ) by {
                assert(packed[(by * bxn + bx) * 16 + j] == encoded_byte(p, wi, hi, fmt, bx, by, j));
            }
            let codes = packed_alpha_codes(p, wi, hi, bx, by, 16);
            lemma_packed_alpha_codes(p, wi, hi, bx, by, 16);
            assert(packed[off + 0] == alpha_block_byte(p, wi, hi, bx, by, 0));
            assert(packed[off + 1] == alpha_block_byte(p, wi, hi, bx, by, 1));
            assert(packed[off + 2] == alpha_block_byte(p, wi, hi, bx, by, 2));
            assert(packed[off + 3] == alpha_block_byte(p, wi, hi, bx, by, 3));
            assert(packed[off + 4] == alpha_block_byte(p, wi, hi, bx, by, 4));
            assert(packed[off + 5] == alpha_block_byte(p, wi, hi, bx, by, 5));
            assert(packed[off + 6] == alpha_block_byte(p, wi, hi, bx, by, 6));
            assert(packed[off + 7] == alpha_block_byte(p, wi, hi, bx, by, 7));
            assert(codes >> 0u64 == codes) by (bit_vector);
            assert((1u64 << 48u64) == 0x1_0000_0000_0000u64) by (bit_vector);
            lemma_u48_bytes(codes);
            assert(alpha_bits(packed, off) == codes);
            assert(alpha_code(codes, k) == chosen_alpha_code(p, wi, hi, bx, by, k));
        }
    }
}

/// Alpha of pixel (`x`, `y`) of a `w` x `h` RGBA image, or 0 outside it.
pub open spec fn pixel_alpha(p: Seq<u8>, w: int, h: int, x: int, y: int) -> int {
    if 0 <= x < w && 0 <= y < h {
        p[pix(w, x, y, 3)] as int
    } else {
        0
    }
}

/// In DXT5, every pixel's alpha decodes to one of its block's two endpoints:
/// the alpha of the block's first pixel (top left) when the pixel's own alpha
/// lies above the midpoint of the two, else the alpha of its last pixel (bottom
/// right, 0 when that lies outside the image). So a block whose pixels take
/// only those two alphas, the first no lower than the last, keeps every alpha.
/// (`packed` is any buffer holding exactly what `compress` states it returns.)
pub proof fn dxt5_alpha_decodes_to_an_endpoint(
    p: Seq<u8>,
    w: u32,
    h: u32,
    packed: Seq<u8>,
    x: int,
    y: int,
)
    requires
        compress_sizes_ok(p.len() as int, w, h, DxtFormat::Dxt5),
        packed.len() == packed_len(w as int, h as int, DxtFormat::Dxt5),
        forall|bx: int, by: int, j: int|
            #![trigger packed[(by * blocks_for(w as int) + bx) * DxtFormat::Dxt5.bytes_per_block() + j]]
            0 <= bx < blocks_for(w as int) && 0 <= by < blocks_for(h as int) && 0 <= j
                < DxtFormat::Dxt5.bytes_per_block() ==> packed[(by * blocks_for(w as int) + bx)
                * DxtFormat::Dxt5.bytes_per_block() + j] == encoded_byte(
                p,
                w as int,
                h as int,
                DxtFormat::Dxt5,
                bx,
                by,
                j,
            ),
        0 <= x < w,
        0 <= y < h,
    ensures
        ({
            let a = p[pix(w as int, x, y, 3)] as int;
            let first = pixel_alpha(p, w as int, h as int, 4 * (x / 4), 4 * (y / 4));
            let last = pixel_alpha(p, w as int, h as int, 4 * (x / 4) + 3, 4 * (y / 4) + 3);
            &&& texel(packed, w as int, DxtFormat::Dxt5, x, y, 3) == if a > (first + last) / 2 {
                first
            } else {
                last
            }
            &&& (last <= first && (a == first || a == last)) ==> texel(
                packed,
                w as int,
                DxtFormat::Dxt5,
                x,
                y,
                3,
            ) == a
        }),
{
    let fmt = DxtFormat::Dxt5;
    let wi = w as int;
    let hi = h as int;
    let bxn = blocks_for(wi);
    let bx = x / 4;
    let by = y / 4;
    let k = (y % 4) * 4 + x % 4;
    let off = (by * bxn + bx) * 16;
    assert(0 <= bx < bxn && 0 <= by < blocks_for(hi));
    lemma_block_slot(bxn, blocks_for(hi), 16, bx, by, 0);
    lemma_block_slot(bxn, blocks_for(hi), 16, bx, by, 15);
    assert(4 * bx + k % 4 == x && 4 * by + k / 4 == y);
    assert(source_texel(p, wi, hi, bx, by, k, 3) == p[pix(wi, x, y, 3)] as int);
    assert(source_texel(p, wi, hi, bx, by, 0, 3) == pixel_alpha(p, wi, hi, 4 * bx, 4 * by));
    assert(source_texel(p, wi, hi, bx, by, 15, 3) == pixel_alpha(p, wi, hi, 4 * bx + 3, 4 * by + 3));
    assert forall|j: int| 0 <= j < 8 implies #[trigger] packed[off + j] == alpha_block_byte(
        p,
        wi,
        hi,
        bx,
        by,
        j,
    ) by {
        assert(packed[(by * bxn + bx) * 16 + j] == encoded_byte(p, wi, hi, fmt, bx, by, j));
    }
    let codes = packed_alpha_codes(p, wi, hi, bx, by, 16);
    lemma_packed_alpha_codes(p, wi, hi, bx, by, 16);
    assert(packed[off + 0] == alpha_block_byte(p, wi, hi, bx, by, 0));
    assert(packed[off + 1] == alpha_block_byte(p, wi, hi, bx, by, 1));
    assert(packed[off + 2] == alpha_block_byte(p, wi, hi, bx, by, 2));
    assert(packed[off + 3] == alpha_block_byte(p, wi, hi, bx, by, 3));
    assert(packed[off + 4] == alpha_block_byte(p, wi, hi, bx, by, 4));
    assert(packed[off + 5] == alpha_block_byte(p, wi, hi, bx, by, 5));
    assert(packed[off + 6] == alpha_block_byte(p, wi, hi, bx, by, 6));
    assert(packed[off + 7] == alpha_block_byte(p, wi, hi, bx, by, 7));
    assert(codes >> 0u64 == codes) by (bit_vector);
    assert((1u64 << 48u64) == 0x1_0000_0000_0000u64) by (bit_vector);
    lemma_u48_bytes(codes);
    assert(alpha_bits(packed, off) == codes);
    assert(alpha_code(codes, k) == chosen_alpha_code(p, wi, hi, bx, by, k));
    assert(texel(packed, wi, fmt, x, y, 3) == alpha_texel(packed, off, k));
}

/// Channel `ch` of pixel (`x`, `y`) of a `w` x `h` RGBA image, or 0 outside it.
pub open spec fn pixel_channel(p: Seq<u8>, w: int, h: int, x: int, y: int, ch: int) -> int {
    if 0 <= x < w && 0 <= y < h {
        p[pix(w, x, y, ch)] as int
    } else {
        0
    }
}

/// Pixels (`x1`, `y1`) and (`x2`, `y2`) agree in all four channels.
pub open spec fn same_pixel(p: Seq<u8>, w: int, h: int, x1: int, y1: int, x2: int, y2: int) -> bool {
    forall|ch: int|
        0 <= ch < 4 ==> #[trigger] pixel_channel(p, w, h, x1, y1, ch) == pixel_channel(
            p,
            w,
            h,
            x2,
            y2,
            ch,
        )
}

/// The RGB565 colour of pixel (`x`, `y`).
pub open spec fn pixel_565(p: Seq<u8>, w: int, h: int, x: int, y: int) -> int {
    pack565(
        pixel_channel(p, w, h, x, y, 0),
        pixel_channel(p, w, h, x, y, 1),
        pixel_channel(p, w, h, x, y, 2),
    )
}

/// The colour channels of pixel (`x`, `y`) decode as the palette entry that
/// the encoder chose for it.
proof fn lemma_colour_texel(
    p: Seq<u8>,
    w: u32,
    h: u32,
    fmt: DxtFormat,
    packed: Seq<u8>,
    x: int,
    y: int,
    ch: int,
)
    requires
        compress_sizes_ok(p.len() as int, w, h, fmt),
        packed.len() == packed_len(w as int, h as int, fmt),
        forall|bx: int, by: int, j: int|
            #![trigger packed[(by * blocks_for(w as int) + bx) * fmt.bytes_per_block() + j]]
            0 <= bx < blocks_for(w as int) && 0 <= by < blocks_for(h as int) && 0 <= j
                < fmt.bytes_per_block() ==> packed[(by * blocks_for(w as int) + bx)
                * fmt.bytes_per_block() + j] == encoded_byte(p, w as int, h as int, fmt, bx, by, j),
        0 <= x < w,
        0 <= y < h,
        0 <= ch < 4,
        ch < 3 || fmt == DxtFormat::Dxt1,
    ensures
        texel(packed, w as int, fmt, x, y, ch) == palette(
            endpoint(p, w as int, h as int, x / 4, y / 4, 0),
            endpoint(p, w as int, h as int, x / 4, y / 4, 1),
            chosen_index(p, w as int, h as int, x / 4, y / 4, (y % 4) * 4 + x % 4) as int,
            ch,
        ),
{
    let wi = w as int;
    let hi = h as int;
    let bxn = blocks_for(wi);
    let bs = fmt.bytes_per_block() as int;
    let bx = x / 4;
    let by = y / 4;
    let k = (y % 4) * 4 + x % 4;
    let off = (by * bxn + bx) * bs;
    assert(0 <= bx < bxn && 0 <= by < blocks_for(hi));
    lemma_block_slot(bxn, blocks_for(hi), bs, bx, by, 0);
    lemma_block_slot(bxn, blocks_for(hi), bs, bx, by, bs - 1);
    let cbase = if fmt == DxtFormat::Dxt1 {
        off
    } else {
        off + 8
    };
    assert forall|j: int| 0 <= j < 8 implies #[trigger] packed[cbase + j] == color_block_byte(
        p,
        wi,
        hi,
        bx,
        by,
        j,
    ) by {
        let jj = if fmt == DxtFormat::Dxt1 {
            j
        } else {
            j + 8
        };
        assert(packed[(by * bxn + bx) * bs + jj] == encoded_byte(p, wi, hi, fmt, bx, by, jj));
    }
    lemma_color_block_decodes(packed, cbase, p, wi, hi, bx, by);
    assert(texel(packed, wi, fmt, x, y, ch) == block_texel(packed, off, fmt, k, ch));
    assert(block_texel(packed, off, fmt, k, ch) == color_texel(packed, cbase, k, ch));
    assert(color_index(le32(packed, cbase + 4) as u32, k) == chosen_index(p, wi, hi, bx, by, k));
}

/// The encoder's texels of block (`x / 4`, `y / 4`) are the image's pixels.
proof fn lemma_block_texels_are_pixels(p: Seq<u8>, w: int, h: int, x: int, y: int)
    requires
        0 <= x < w,
        0 <= y < h,
    ensures
        forall|c: int|
            0 <= c < 4 ==> #[trigger] source_texel(p, w, h, x / 4, y / 4, (y % 4) * 4 + x % 4, c)
                == pixel_channel(p, w, h, x, y, c),
        forall|c: int|
            0 <= c < 4 ==> #[trigger] source_texel(p, w, h, x / 4, y / 4, 0, c) == pixel_channel(
                p,
                w,
                h,
                4 * (x / 4),
                4 * (y / 4),
                c,
            ),
        forall|c: int|
            0 <= c < 4 ==> #[trigger] source_texel(p, w, h, x / 4, y / 4, 1, c) == pixel_channel(
                p,
                w,
                h,
                4 * (x / 4) + 1,
                4 * (y / 4),
                c,
            ),
        forall|c: int|
            0 <= c < 4 ==> #[trigger] source_texel(p, w, h, x / 4, y / 4, 15, c) == pixel_channel(
                p,
                w,
                h,
                4 * (x / 4) + 3,
                4 * (y / 4) + 3,
                c,
            ),
{
    let k = (y % 4) * 4 + x % 4;
    assert(4 * (x / 4) + k % 4 == x && 4 * (y / 4) + k / 4 == y);
}

/// Which palette entry the encoder picks for pixel (`x`, `y`), in terms of the
/// pixels of its block.
proof fn lemma_chosen_index(p: Seq<u8>, w: int, h: int, x: int, y: int)
    requires
        0 <= x < w,
        0 <= y < h,
    ensures
        ({
            let fx = 4 * (x / 4);
            let fy = 4 * (y / 4);
            let c0 = pixel_565(p, w, h, fx, fy);
            let c1 = pixel_565(p, w, h, fx + 3, fy + 3);
            let i = chosen_index(p, w, h, x / 4, y / 4, (y % 4) * 4 + x % 4);
            &&& endpoint(p, w, h, x / 4, y / 4, 0) == c0
            &&& endpoint(p, w, h, x / 4, y / 4, 1) == c1
            &&& c0 <= c1 ==> i == 0
            &&& (c0 > c1 && same_pixel(p, w, h, x, y, fx, fy)) ==> i == 0
            &&& (c0 > c1 && !same_pixel(p, w, h, x, y, fx, fy) && same_pixel(
                p,
                w,
                h,
                x,
                y,
                fx + 1,
                fy,
            )) ==> i == 1
        }),
{
    let bx = x / 4;
    let by = y / 4;
    let k = (y % 4) * 4 + x % 4;
    lemma_block_texels_are_pixels(p, w, h, x, y);
    let c0 = endpoint(p, w, h, bx, by, 0);
    let c1 = endpoint(p, w, h, bx, by, 1);
    assert(c0 == pixel_565(p, w, h, 4 * bx, 4 * by));
    assert(c1 == pixel_565(p, w, h, 4 * bx + 3, 4 * by + 3));
    if c0 > c1 && same_pixel(p, w, h, x, y, 4 * bx, 4 * by) {
        assert(pixel_channel(p, w, h, x, y, 0) == pixel_channel(p, w, h, 4 * bx, 4 * by, 0));
        assert(pixel_channel(p, w, h, x, y, 1) == pixel_channel(p, w, h, 4 * bx, 4 * by, 1));
        assert(pixel_channel(p, w, h, x, y, 2) == pixel_channel(p, w, h, 4 * bx, 4 * by, 2));
        assert(pixel_channel(p, w, h, x, y, 3) == pixel_channel(p, w, h, 4 * bx, 4 * by, 3));
        assert(same_texel(p, w, h, bx, by, k, 0));
    }
    if c0 > c1 && !same_pixel(p, w, h, x, y, 4 * bx, 4 * by) && same_pixel(
        p,
        w,
        h,
        x,
        y,
        4 * bx + 1,
        4 * by,
    ) {
        if same_texel(p, w, h, bx, by, k, 0) {
            assert forall|c: int| 0 <= c < 4 implies #[trigger] pixel_channel(p, w, h, x, y, c)
                == pixel_channel(p, w, h, 4 * bx, 4 * by, c) by {
                assert(source_texel(p, w, h, bx, by, k, c) == source_texel(p, w, h, bx, by, 0, c));
            }
        }
        assert(pixel_channel(p, w, h, x, y, 0) == pixel_channel(p, w, h, 4 * bx + 1, 4 * by, 0));
        assert(pixel_channel(p, w, h, x, y, 1) == pixel_channel(p, w, h, 4 * bx + 1, 4 * by, 1));
        assert(pixel_channel(p, w, h, x, y, 2) == pixel_channel(p, w, h, 4 * bx + 1, 4 * by, 2));
        assert(pixel_channel(p, w, h, x, y, 3) == pixel_channel(p, w, h, 4 * bx + 1, 4 * by, 3));
        assert(same_texel(p, w, h, bx, by, k, 1));
    }
}

/// The colour endpoints of a block are the RGB565 colours of its first pixel
/// (top left) and its last pixel (bottom right, black outside the image). A
/// pixel decodes to the first endpoint when that is not above the last; else
/// to the first endpoint when it equals the first pixel, and to the second
/// endpoint when it equals the block's second pixel (the one right of the
/// first) but not the first. In DXT1 every pixel decodes opaque. (`packed` is any
/// buffer holding exactly what `compress` states it returns.)
pub proof fn encoded_colour_comes_from_an_endpoint(
    p: Seq<u8>,
    w: u32,
    h: u32,
    fmt: DxtFormat,
    packed: Seq<u8>,
    x: int,
    y: int,
    ch: int,
)
    requires
        compress_sizes_ok(p.len() as int, w, h, fmt),
        packed.len() == packed_len(w as int, h as int, fmt),
        forall|bx: int, by: int, j: int|
            #![trigger packed[(by * blocks_for(w as int) + bx) * fmt.bytes_per_block() + j]]
            0 <= bx < blocks_for(w as int) && 0 <= by < blocks_for(h as int) && 0 <= j
                < fmt.bytes_per_block() ==> packed[(by * blocks_for(w as int) + bx)
                * fmt.bytes_per_block() + j] == encoded_byte(p, w as int, h as int, fmt, bx, by, j),
        0 <= x < w,
        0 <= y < h,
        0 <= ch < 4,
    ensures
        ({
            let wi = w as int;
            let hi = h as int;
            let fx = 4 * (x / 4);
            let fy = 4 * (y / 4);
            let c0 = pixel_565(p, wi, hi, fx, fy);
            let c1 = pixel_565(p, wi, hi, fx + 3, fy + 3);
            let t = texel(packed, wi, fmt, x, y, ch);
            &&& (ch < 3 && c0 <= c1) ==> t == unpack565(c0, ch)
            &&& (ch < 3 && c0 > c1 && same_pixel(p, wi, hi, x, y, fx, fy)) ==> t == unpack565(c0, ch)
            &&& (ch < 3 && c0 > c1 && !same_pixel(p, wi, hi, x, y, fx, fy) && same_pixel(
                p,
                wi,
                hi,
                x,
                y,
                fx + 1,
                fy,
            )) ==> t == unpack565(c1, ch)
            &&& (fmt == DxtFormat::Dxt1 && ch == 3) ==> t == 255
        }),
{
    if ch < 3 || fmt == DxtFormat::Dxt1 {
        lemma_colour_texel(p, w, h, fmt, packed, x, y, ch);
        lemma_chosen_index(p, w as int, h as int, x, y);
    }
}

} // verus!
