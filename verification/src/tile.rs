//! The tile codec: conversion between a packed 32-byte planar layout and an
//! 8×8 grid of 4-bit pixel samples, plus offset-addressed access to tile
//! records inside a flat byte buffer.
//!
//! A tile is 8 rows of 8 pixels, each pixel a value in `[0, 16)`. The 32
//! bytes split into two 16-byte half-planes: for row `r`, byte `2r` holds
//! bit-plane 0 and byte `2r + 1` bit-plane 1; byte `16 + 2r` holds bit-plane
//! 2 and byte `17 + 2r` bit-plane 3. Within a plane byte, column `c` sits at
//! bit position `7 - c` (column 0 is the most significant bit).

use vstd::prelude::*;

verus! {

/// A rectangular grid of grayscale samples, row-major: the sample at
/// `(x, y)` is `samples[y * width + x]`. This is the library's plain-value
/// stand-in for a decoded raster image.
pub struct Raster {
    pub width: usize,
    pub height: usize,
    pub samples: Vec<u8>,
}

impl Raster {
    /// The sample vector covers the full `width × height` grid.
    pub open spec fn wf(&self) -> bool {
        self.samples@.len() == self.width * self.height
    }

    /// The sample at column `x`, row `y`.
    pub open spec fn sample_at(&self, x: int, y: int) -> u8
        recommends
            self.wf(),
            0 <= x < self.width,
            0 <= y < self.height,
    {
        self.samples@[y * self.width + x]
    }

    /// Builds a raster, rejecting a sample vector whose length does not
    /// match the stated dimensions.
    pub fn new(width: usize, height: usize, samples: Vec<u8>) -> (r: Option<Raster>)
        ensures
            match r {
                Some(im) => {
                    &&& im.wf()
                    &&& im.width == width
                    &&& im.height == height
                    &&& im.samples@ == samples@
                },
                None => samples@.len() != width * height,
            },
    {
        let len = samples.len();
        let expected = width.checked_mul(height);
        match expected {
            Some(n) => {
                if len == n {
                    Some(Raster { width, height, samples })
                } else {
                    None
                }
            },
            None => None,
        }
    }

    /// Reads one sample.
    pub fn sample(&self, x: usize, y: usize) -> (s: u8)
        requires
            self.wf(),
            x < self.width,
            y < self.height,
        ensures
            s == self.sample_at(x as int, y as int),
    {
        let len = self.samples.len();
        proof {
            assert((y as int) * (self.width as int) + (x as int) < (self.width as int) * (self.height as int))
                by (nonlinear_arith)
                requires
                    0 <= x < self.width,
                    0 <= y < self.height,
            ;
            assert(y * self.width + x < len);
        }
        self.samples[y * self.width + x]
    }
}

/// The bit of plane byte `b` that belongs to column `c`: bit position `7 - c`.
pub open spec fn plane_bit(b: u8, c: int) -> u8
    recommends
        0 <= c < 8,
{
    (b >> ((7 - c) as u8)) & 1
}

/// The 4-bit pixel value stored at row `r`, column `c` of the packed bytes
/// `t`: plane `n` contributes bit `n`.
pub open spec fn tile_pixel(t: Seq<u8>, r: int, c: int) -> u8
    recommends
        t.len() == 32,
        0 <= r < 8,
        0 <= c < 8,
{
    plane_bit(t[2 * r], c)
        | (plane_bit(t[2 * r + 1], c) << 1u8)
        | (plane_bit(t[16 + 2 * r], c) << 2u8)
        | (plane_bit(t[17 + 2 * r], c) << 3u8)
}

/// One 8×8-pixel, 4-bit-per-pixel image cell, stored as exactly 32 packed
/// bytes.
pub struct Tile {
    bytes: Vec<u8>,
}

impl View for Tile {
    type V = Seq<u8>;

    closed spec fn view(&self) -> Seq<u8> {
        self.bytes@
    }
}

impl Tile {
    /// Every tile holds exactly 32 bytes.
    pub open spec fn wf(&self) -> bool {
        self@.len() == 32
    }

    /// Wraps a 32-byte record as a tile; rejects any other length.
    pub fn from_bytes(bytes: Vec<u8>) -> (r: Option<Tile>)
        ensures
            match r {
                Some(t) => t.wf() && t@ == bytes@,
                None => bytes@.len() != 32,
            },
    {
        if bytes.len() == 32 {
            Some(Tile { bytes })
        } else {
            None
        }
    }

    /// The packed bytes of the tile.
    pub fn bytes(&self) -> (r: &Vec<u8>)
        ensures
            r@ == self@,
    {
        &self.bytes
    }

    /// Reads the 32-byte tile record `idx` out of a flat tile-table buffer.
    /// The record occupies bytes `[32 * idx, 32 * idx + 32)`; a buffer too
    /// short for that window yields `None`.
    pub fn load_from(buf: &Vec<u8>, idx: usize) -> (r: Option<Tile>)
        ensures
            r is Some <==> 32 * (idx as int) + 32 <= buf@.len(),
            match r {
                Some(t) => t.wf() && t@ == buf@.subrange(32 * (idx as int), 32 * (idx as int) + 32),
                None => true,
            },
    {
        let n = buf.len();
        let off = match idx.checked_mul(32) {
            Some(o) => o,
            None => {
                return None;
            },
        };
        let end = match off.checked_add(32) {
            Some(e) => e,
            None => {
                return None;
            },
        };
        if end > n {
            return None;
        }
        let mut bytes: Vec<u8> = Vec::new();
        let mut j: usize = 0;
        while j < 32
            invariant
                j <= 32,
                off == 32 * (idx as int),
                off + 32 <= buf@.len(),
                bytes@.len() == j,
                forall|i: int| 0 <= i < j ==> bytes@[i] == buf@[off + i],
            decreases 32 - j,
        {
            bytes.push(buf[off + j]);
            j += 1;
        }
        proof {
            assert(bytes@ =~= buf@.subrange(32 * (idx as int), 32 * (idx as int) + 32));
        }
        Some(Tile { bytes })
    }

    /// Writes this tile's 32 bytes over record `idx` of a flat tile-table
    /// buffer: an in-place overwrite of exactly the window
    /// `[32 * idx, 32 * idx + 32)`. The buffer is never grown: if it is too
    /// short for the window, nothing is written and `false` comes back.
    pub fn write_to(&self, buf: &mut Vec<u8>, idx: usize) -> (ok: bool)
        requires
            self.wf(),
        ensures
            ok <==> 32 * (idx as int) + 32 <= old(buf)@.len(),
            final(buf)@.len() == old(buf)@.len(),
            ok ==> forall|i: int|
                0 <= i < old(buf)@.len() ==> final(buf)@[i] == if 32 * (idx as int) <= i < 32 * (idx as int) + 32 {
                    self@[i - 32 * (idx as int)]
                } else {
                    old(buf)@[i]
                },
            !ok ==> final(buf)@ == old(buf)@,
    {
        let n = buf.len();
        let off = match idx.checked_mul(32) {
            Some(o) => o,
            None => {
                return false;
            },
        };
        let end = match off.checked_add(32) {
            Some(e) => e,
            None => {
                return false;
            },
        };
        if end > n {
            return false;
        }
        let mut j: usize = 0;
        while j < 32
            invariant
                j <= 32,
                off == 32 * (idx as int),
                off + 32 <= buf@.len(),
                self.wf(),
                buf@.len() == old(buf)@.len(),
                forall|i: int| off <= i < off + j ==> buf@[i] == self@[i - off],
                forall|i: int| 0 <= i < buf@.len() && !(off <= i < off + j) ==> buf@[i] == old(buf)@[i],
            decreases 32 - j,
        {
            let b = self.bytes[j];
            buf[off + j] = b;
            j += 1;
        }
        true
    }
}

/// A quantized sample is a 4-bit value.
proof fn lemma_quant_bound(s: u8)
    ensures
        s / 16 < 16,
{
    assert(s / 16 < 16) by (bit_vector);
}

/// A plane byte assembled from the plane-`k` bits of eight pixel values,
/// column 0 at the most significant bit, yields each bit back at position
/// `7 - c` for column `c`.
proof fn lemma_plane_byte_bits(v0: u8, v1: u8, v2: u8, v3: u8, v4: u8, v5: u8, v6: u8, v7: u8, k: u8, b: u8)
    requires
        k < 4,
        b == (((v0 >> k) & 1) << 7u8) | (((v1 >> k) & 1) << 6u8) | (((v2 >> k) & 1) << 5u8)
            | (((v3 >> k) & 1) << 4u8) | (((v4 >> k) & 1) << 3u8) | (((v5 >> k) & 1) << 2u8)
            | (((v6 >> k) & 1) << 1u8) | ((v7 >> k) & 1),
    ensures
        (b >> 7u8) & 1 == (v0 >> k) & 1,
        (b >> 6u8) & 1 == (v1 >> k) & 1,
        (b >> 5u8) & 1 == (v2 >> k) & 1,
        (b >> 4u8) & 1 == (v3 >> k) & 1,
        (b >> 3u8) & 1 == (v4 >> k) & 1,
        (b >> 2u8) & 1 == (v5 >> k) & 1,
        (b >> 1u8) & 1 == (v6 >> k) & 1,
        (b >> 0u8) & 1 == (v7 >> k) & 1,
{
    assert((b >> 7u8) & 1 == (v0 >> k) & 1 && (b >> 6u8) & 1 == (v1 >> k) & 1
        && (b >> 5u8) & 1 == (v2 >> k) & 1 && (b >> 4u8) & 1 == (v3 >> k) & 1
        && (b >> 3u8) & 1 == (v4 >> k) & 1 && (b >> 2u8) & 1 == (v5 >> k) & 1
        && (b >> 1u8) & 1 == (v6 >> k) & 1 && (b >> 0u8) & 1 == (v7 >> k) & 1) by (bit_vector)
        requires
            k < 4,
            b == (((v0 >> k) & 1) << 7u8) | (((v1 >> k) & 1) << 6u8) | (((v2 >> k) & 1) << 5u8)
                | (((v3 >> k) & 1) << 4u8) | (((v4 >> k) & 1) << 3u8) | (((v5 >> k) & 1) << 2u8)
                | (((v6 >> k) & 1) << 1u8) | ((v7 >> k) & 1),
    ;
}

/// Recombining the four plane bits of a 4-bit value gives the value back.
proof fn lemma_val_recombine(v: u8)
    requires
        v < 16,
    ensures
        ((v >> 0u8) & 1) | ((((v >> 1u8) & 1) << 1u8)) | (((v >> 2u8) & 1) << 2u8) | (((v >> 3u8) & 1) << 3u8) == v,
{
    assert(v < 16 ==> ((v >> 0u8) & 1) | ((((v >> 1u8) & 1) << 1u8)) | (((v >> 2u8) & 1) << 2u8)
        | (((v >> 3u8) & 1) << 3u8) == v) by (bit_vector);
}

impl Tile {
    /// Encodes the 8×8 tile window with linear index `idx` of a raster that
    /// is exactly 128 samples (16 tiles) wide. The window's top-left corner
    /// is at column `8 * (idx % 16)`, row `8 * (idx / 16)`; each sample is
    /// quantized to 4 bits by integer division by 16 and scattered into the
    /// planar layout.
    pub fn from_image_at(im: &Raster, idx: usize) -> (t: Tile)
        requires
            im.wf(),
            im.width == 128,
            8 * ((idx as int) / 16) + 8 <= im.height,
        ensures
            t.wf(),
            forall|r: int, c: int|
                0 <= r < 8 && 0 <= c < 8 ==> #[trigger] tile_pixel(t@, r, c) == im.sample_at(
                    8 * ((idx as int) % 16) + c,
                    8 * ((idx as int) / 16) + r,
                ) / 16,
    {
        let tile_row = idx / 16;
        let tile_col = idx % 16;
        let mut bytes: Vec<u8> = Vec::new();
        let mut i: usize = 0;
        while i < 32
            invariant
                i <= 32,
                bytes@.len() == i,
            decreases 32 - i,
        {
            bytes.push(0);
            i += 1;
        }
        let mut r: usize = 0;
        while r < 8
            invariant
                r <= 8,
                bytes@.len() == 32,
                tile_row == (idx as int) / 16,
                tile_col == (idx as int) % 16,
                im.wf(),
                im.width == 128,
                8 * (tile_row as int) + 8 <= im.height,
                forall|r2: int, c: int|
                    0 <= r2 < r && 0 <= c < 8 ==> #[trigger] tile_pixel(bytes@, r2, c) == im.sample_at(
                        8 * (tile_col as int) + c,
                        8 * (tile_row as int) + r2,
                    ) / 16,
            decreases 8 - r,
        {
            let row = tile_row * 8 + r;
            let bc = tile_col * 8;
            let s0 = im.sample(bc, row);
            let s1 = im.sample(bc + 1, row);
            let s2 = im.sample(bc + 2, row);
            let s3 = im.sample(bc + 3, row);
            let s4 = im.sample(bc + 4, row);
            let s5 = im.sample(bc + 5, row);
            let s6 = im.sample(bc + 6, row);
            let s7 = im.sample(bc + 7, row);
            let v0 = s0 / 16;
            let v1 = s1 / 16;
            let v2 = s2 / 16;
            let v3 = s3 / 16;
            let v4 = s4 / 16;
            let v5 = s5 / 16;
            let v6 = s6 / 16;
            let v7 = s7 / 16;
            let p0: u8 = (((v0 >> 0u8) & 1) << 7u8) | (((v1 >> 0u8) & 1) << 6u8) | (((v2 >> 0u8) & 1) << 5u8)
                | (((v3 >> 0u8) & 1) << 4u8) | (((v4 >> 0u8) & 1) << 3u8) | (((v5 >> 0u8) & 1) << 2u8)
                | (((v6 >> 0u8) & 1) << 1u8) | ((v7 >> 0u8) & 1);
            let p1: u8 = (((v0 >> 1u8) & 1) << 7u8) | (((v1 >> 1u8) & 1) << 6u8) | (((v2 >> 1u8) & 1) << 5u8)
                | (((v3 >> 1u8) & 1) << 4u8) | (((v4 >> 1u8) & 1) << 3u8) | (((v5 >> 1u8) & 1) << 2u8)
                | (((v6 >> 1u8) & 1) << 1u8) | ((v7 >> 1u8) & 1);
            let p2: u8 = (((v0 >> 2u8) & 1) << 7u8) | (((v1 >> 2u8) & 1) << 6u8) | (((v2 >> 2u8) & 1) << 5u8)
                | (((v3 >> 2u8) & 1) << 4u8) | (((v4 >> 2u8) & 1) << 3u8) | (((v5 >> 2u8) & 1) << 2u8)
                | (((v6 >> 2u8) & 1) << 1u8) | ((v7 >> 2u8) & 1);
            let p3: u8 = (((v0 >> 3u8) & 1) << 7u8) | (((v1 >> 3u8) & 1) << 6u8) | (((v2 >> 3u8) & 1) << 5u8)
                | (((v3 >> 3u8) & 1) << 4u8) | (((v4 >> 3u8) & 1) << 3u8) | (((v5 >> 3u8) & 1) << 2u8)
                | (((v6 >> 3u8) & 1) << 1u8) | ((v7 >> 3u8) & 1);
            let ghost prev = bytes@;
            bytes[2 * r] = p0;
            bytes[2 * r + 1] = p1;
            bytes[16 + 2 * r] = p2;
            bytes[17 + 2 * r] = p3;
            proof {
                lemma_quant_bound(s0);
                lemma_quant_bound(s1);
                lemma_quant_bound(s2);
                lemma_quant_bound(s3);
                lemma_quant_bound(s4);
                lemma_quant_bound(s5);
                lemma_quant_bound(s6);
                lemma_quant_bound(s7);
                lemma_plane_byte_bits(v0, v1, v2, v3, v4, v5, v6, v7, 0, p0);
                lemma_plane_byte_bits(v0, v1, v2, v3, v4, v5, v6, v7, 1, p1);
                lemma_plane_byte_bits(v0, v1, v2, v3, v4, v5, v6, v7, 2, p2);
                lemma_plane_byte_bits(v0, v1, v2, v3, v4, v5, v6, v7, 3, p3);
                assert forall|c: int| 0 <= c < 8 implies #[trigger] tile_pixel(bytes@, r as int, c) == im.sample_at(
                    8 * (tile_col as int) + c,
                    8 * (tile_row as int) + (r as int),
                ) / 16 by {
                    assert(bytes@[2 * (r as int)] == p0);
                    assert(bytes@[2 * (r as int) + 1] == p1);
                    assert(bytes@[16 + 2 * (r as int)] == p2);
                    assert(bytes@[17 + 2 * (r as int)] == p3);
                    if c == 0 {
                        lemma_val_recombine(v0);
                        assert(tile_pixel(bytes@, r as int, c) == v0);
                    } else if c == 1 {
                        lemma_val_recombine(v1);
                        assert(tile_pixel(bytes@, r as int, c) == v1);
                    } else if c == 2 {
                        lemma_val_recombine(v2);
                        assert(tile_pixel(bytes@, r as int, c) == v2);
                    } else if c == 3 {
                        lemma_val_recombine(v3);
                        assert(tile_pixel(bytes@, r as int, c) == v3);
                    } else if c == 4 {
                        lemma_val_recombine(v4);
                        assert(tile_pixel(bytes@, r as int, c) == v4);
                    } else if c == 5 {
                        lemma_val_recombine(v5);
                        assert(tile_pixel(bytes@, r as int, c) == v5);
                    } else if c == 6 {
                        lemma_val_recombine(v6);
                        assert(tile_pixel(bytes@, r as int, c) == v6);
                    } else {
                        lemma_val_recombine(v7);
                        assert(tile_pixel(bytes@, r as int, c) == v7);
                    }
                }
                assert forall|r2: int, c: int| 0 <= r2 < r && 0 <= c < 8 implies #[trigger] tile_pixel(bytes@, r2, c)
                    == im.sample_at(8 * (tile_col as int) + c, 8 * (tile_row as int) + r2) / 16 by {
                    assert(bytes@[2 * r2] == prev[2 * r2]);
                    assert(bytes@[2 * r2 + 1] == prev[2 * r2 + 1]);
                    assert(bytes@[16 + 2 * r2] == prev[16 + 2 * r2]);
                    assert(bytes@[17 + 2 * r2] == prev[17 + 2 * r2]);
                    assert(tile_pixel(prev, r2, c) == im.sample_at(
                        8 * (tile_col as int) + c,
                        8 * (tile_row as int) + r2,
                    ) / 16);
                }
            }
            r += 1;
        }
        Tile { bytes }
    }

    /// Decodes the tile into an 8×8 grayscale raster whose sample at
    /// `(x, y)` is the raw 4-bit pixel value at row `y`, column `x` — the
    /// values stay in `[0, 16)` and are not rescaled to the 8-bit range.
    pub fn to_image(&self) -> (im: Raster)
        requires
            self.wf(),
        ensures
            im.wf(),
            im.width == 8,
            im.height == 8,
            forall|x: int, y: int|
                0 <= x < 8 && 0 <= y < 8 ==> im.sample_at(x, y) == #[trigger] tile_pixel(self@, y, x),
    {
        let mut samples: Vec<u8> = Vec::new();
        let mut y: usize = 0;
        while y < 8
            invariant
                y <= 8,
                self.wf(),
                samples@.len() == 8 * y,
                forall|j: int| 0 <= j < samples@.len() ==> #[trigger] samples@[j] == tile_pixel(self@, j / 8, j % 8),
            decreases 8 - y,
        {
            let mut x: usize = 0;
            while x < 8
                invariant
                    x <= 8,
                    y < 8,
                    self.wf(),
                    samples@.len() == 8 * y + x,
                    forall|j: int| 0 <= j < samples@.len() ==> #[trigger] samples@[j] == tile_pixel(self@, j / 8, j % 8),
                decreases 8 - x,
            {
                let sh: u8 = (7 - x) as u8;
                let b0 = self.bytes[2 * y];
                let b1 = self.bytes[2 * y + 1];
                let b2 = self.bytes[16 + 2 * y];
                let b3 = self.bytes[17 + 2 * y];
                let px: u8 = ((b0 >> sh) & 1) | (((b1 >> sh) & 1) << 1u8) | (((b2 >> sh) & 1) << 2u8)
                    | (((b3 >> sh) & 1) << 3u8);
                samples.push(px);
                proof {
                    vstd::arithmetic::div_mod::lemma_fundamental_div_mod_converse(
                        8 * (y as int) + (x as int), 8, y as int, x as int);
                    assert(px == tile_pixel(self@, y as int, x as int));
                }
                x += 1;
            }
            y += 1;
        }
        proof {
            assert forall|x: int, y: int| 0 <= x < 8 && 0 <= y < 8 implies samples@[y * 8 + x]
                == #[trigger] tile_pixel(self@, y, x) by {
                vstd::arithmetic::div_mod::lemma_fundamental_div_mod_converse(y * 8 + x, 8, y, x);
            }
        }
        let im = Raster { width: 8, height: 8, samples };
        proof {
            assert forall|x: int, y: int| 0 <= x < 8 && 0 <= y < 8 implies im.sample_at(x, y)
                == #[trigger] tile_pixel(self@, y, x) by {
                assert(im.samples@[y * 8 + x] == tile_pixel(self@, y, x));
            }
        }
        im
    }
}

/// Round trip through the raw format: a tile encoded from a raster window
/// decodes back, for each pixel, to the original sample's 4-bit quantized
/// value `sample / 16`. The decode direction never rescales to the 0–255
/// range, so decoding after encoding is not the identity on arbitrary
/// rasters — it is exactly quantization.
pub proof fn lemma_raw_round_trip(im: Raster, idx: usize, t: Tile, out: Raster)
    requires
        im.wf(),
        im.width == 128,
        8 * ((idx as int) / 16) + 8 <= im.height,
        // `t` is the encoding of window `idx` of `im`, as `Tile::from_image_at` ensures
        forall|r: int, c: int|
            0 <= r < 8 && 0 <= c < 8 ==> #[trigger] tile_pixel(t@, r, c) == im.sample_at(
                8 * ((idx as int) % 16) + c,
                8 * ((idx as int) / 16) + r,
            ) / 16,
        // `out` is the decoding of `t`, as `Tile::to_image` ensures
        out.wf(),
        out.width == 8,
        out.height == 8,
        forall|x: int, y: int|
            0 <= x < 8 && 0 <= y < 8 ==> out.sample_at(x, y) == #[trigger] tile_pixel(t@, y, x),
    ensures
        forall|x: int, y: int|
            0 <= x < 8 && 0 <= y < 8 ==> #[trigger] out.sample_at(x, y) == im.sample_at(
                8 * ((idx as int) % 16) + x,
                8 * ((idx as int) / 16) + y,
            ) / 16,
{
    assert forall|x: int, y: int| 0 <= x < 8 && 0 <= y < 8 implies #[trigger] out.sample_at(x, y)
        == im.sample_at(8 * ((idx as int) % 16) + x, 8 * ((idx as int) / 16) + y) / 16 by {
        assert(out.sample_at(x, y) == tile_pixel(t@, y, x));
        assert(tile_pixel(t@, y, x) == im.sample_at(8 * ((idx as int) % 16) + x, 8 * ((idx as int) / 16) + y) / 16);
    }
}

/// The byte offset of tile record `i` is `32 * i`; distinct records occupy
/// disjoint 32-byte windows of the tile table.
pub proof fn lemma_tile_windows_disjoint(i1: int, i2: int)
    requires
        0 <= i1,
        0 <= i2,
        i1 != i2,
    ensures
        32 * i1 + 32 <= 32 * i2 || 32 * i2 + 32 <= 32 * i1,
{
}

} // verus!
