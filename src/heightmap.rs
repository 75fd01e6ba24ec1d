use vstd::prelude::*;

verus! {

/// How a pixel of a heightmap encodes a height.
#[derive(Clone, Copy, Debug, PartialEq, Eq, Structural)]
pub enum HeightEncoding {
    /// One channel, normalized: `red / 255`.
    Normalized,
    /// Packed in three channels: `red * 256 + green + blue / 256 - 32768`.
    Terrarium,
}

/// What the terrarium encoding subtracts, in whole height units.
pub const TERRARIUM_OFFSET: i64 = 32768;

/// Heights are exact fractions: an integer count of these parts of a unit.
pub open spec fn height_denominator(enc: HeightEncoding) -> int {
    match enc {
        HeightEncoding::Normalized => 255,
        HeightEncoding::Terrarium => 256,
    }
}

/// The height of a pixel, as a count of `1 / height_denominator(enc)` units.
pub open spec fn pixel_units(enc: HeightEncoding, r: u8, g: u8, b: u8) -> int {
    match enc {
        HeightEncoding::Normalized => r as int,
        HeightEncoding::Terrarium => r as int * 65536 + g as int * 256 + b as int - TERRARIUM_OFFSET * 256,
    }
}

/// The denominator of heights in `enc`.
pub fn denominator(enc: HeightEncoding) -> (r: i64)
    ensures
        r == height_denominator(enc),
{
    match enc {
        HeightEncoding::Normalized => 255,
        HeightEncoding::Terrarium => 256,
    }
}

/// The height of a pixel with channels `(r, g, b)`.
pub fn decode_pixel(enc: HeightEncoding, r: u8, g: u8, b: u8) -> (v: i64)
    ensures
        v == pixel_units(enc, r, g, b),
        -0x80_0000 <= v <= 0x80_0000,
{
    match enc {
        HeightEncoding::Normalized => r as i64,
        HeightEncoding::Terrarium => (r as i64) * 65536 + (g as i64) * 256 + (b as i64) - TERRARIUM_OFFSET * 256,
    }
}

/// An RGB heightmap, rows top to bottom, three bytes a pixel.
pub struct HeightMap {
    pub width: u32,
    pub height: u32,
    pub rgb: Vec<u8>,
}

impl HeightMap {
    /// The map has pixels, and exactly the bytes its size asks for.
    pub open spec fn wf(&self) -> bool {
        &&& self.width >= 1
        &&& self.height >= 1
        &&& self.rgb@.len() == 3 * (self.width as int) * (self.height as int)
    }

    /// Byte offset of pixel `(x, y)`.
    pub open spec fn offset(&self, x: int, y: int) -> int {
        3 * (y * self.width + x)
    }

    /// The height of pixel `(x, y)`.
    pub open spec fn units_at(&self, enc: HeightEncoding, x: int, y: int) -> int {
        let o = self.offset(x, y);
        pixel_units(enc, self.rgb@[o], self.rgb@[o + 1], self.rgb@[o + 2])
    }

    /// A heightmap over the given bytes, or `None` when the size is empty or
    /// does not match the number of bytes.
    pub fn new(width: u32, height: u32, rgb: Vec<u8>) -> (r: Option<HeightMap>)
        ensures
            r is Some == (width >= 1 && height >= 1 && rgb@.len() == 3 * (width as int) * (height as int)),
            r matches Some(m) ==> m.wf() && m.width == width && m.height == height && m.rgb@ == rgb@,
    {
        if width == 0 || height == 0 {
            return None;
        }
        let n = rgb.len() as u64;
        let w = width as u64;
        let h = height as u64;
        proof {
            assert((w as int * h as int) <= 0xffff_ffff * 0xffff_ffff) by (nonlinear_arith)
                requires w <= 0xffff_ffff, h <= 0xffff_ffff;
        }
        let wh: u64 = w * h;
        proof {
            assert(3 * (width as int) * (height as int) == 3 * (wh as int)) by (nonlinear_arith)
                requires wh as int == w as int * h as int, w == width, h == height;
        }
        if wh > n / 3 || 3 * wh != n {
            return None;
        }
        Some(HeightMap { width, height, rgb })
    }
}

proof fn lemma_offset_in_range(m: &HeightMap, x: int, y: int)
    requires
        m.wf(),
        0 <= x < m.width,
        0 <= y < m.height,
    ensures
        0 <= m.offset(x, y),
        m.offset(x, y) + 2 < m.rgb@.len(),
{
    let w = m.width as int;
    let h = m.height as int;
    assert(0 <= y * w + x < w * h) by (nonlinear_arith)
        requires 0 <= x < w, 0 <= y < h;
    assert(3 * w * h == 3 * (w * h)) by (nonlinear_arith);
    assert(0 <= y * w <= y * w + x) by (nonlinear_arith)
        requires 0 <= x < w, 0 <= y < h;
}

/// The height of pixel `(x, y)`.
pub fn units_at(m: &HeightMap, enc: HeightEncoding, x: u32, y: u32) -> (v: i64)
    requires
        m.wf(),
        x < m.width,
        y < m.height,
    ensures
        v == m.units_at(enc, x as int, y as int),
        -0x80_0000 <= v <= 0x80_0000,
{
    proof {
        lemma_offset_in_range(m, x as int, y as int);
    }
    let len = m.rgb.len();
    assert(m.offset(x as int, y as int) + 2 < len);
    let o = 3 * ((y as usize) * (m.width as usize) + (x as usize));
    decode_pixel(enc, m.rgb[o], m.rgb[o + 1], m.rgb[o + 2])
}

/// Largest mesh resolution, in vertices along a side.
pub const MAX_RESOLUTION: usize = 4096;

/// The pixel, along an axis of `size` pixels, that mesh column `k` of
/// `res` samples: `k * size / res`, kept inside the image.
pub open spec fn sample_index(k: int, size: int, res: int) -> int {
    if k < 0 {
        0
    } else if k * size / res > size - 1 {
        size - 1
    } else {
        k * size / res
    }
}

/// The pixel that mesh column `k` samples.
pub fn sample_of(k: i64, size: u32, res: usize) -> (r: u32)
    requires
        size >= 1,
        1 <= res <= MAX_RESOLUTION,
        -1 <= k <= res as int,
    ensures
        r == sample_index(k as int, size as int, res as int),
        r < size,
{
    if k < 0 {
        0
    } else {
        proof {
            assert((k as int * size as int) <= 4097 * 0xffff_ffff) by (nonlinear_arith)
                requires 0 <= k <= 4097, size <= 0xffff_ffff;
        }
        let v: u64 = (k as u64) * (size as u64) / (res as u64);
        if v > (size - 1) as u64 {
            size - 1
        } else {
            v as u32
        }
    }
}

/// The height at mesh vertex `(x, y)` sampled from `m`, at texture position
/// `(x + i, y + j)` for `i` and `j` in `{-1, 0, 1}`.
pub open spec fn sample_units(m: &HeightMap, enc: HeightEncoding, res: int, x: int, y: int) -> int {
    m.units_at(enc, sample_index(x, m.width as int, res), sample_index(y, m.height as int, res))
}

/// The sum of the nine samples around mesh vertex `(x, y)`: nine times its
/// smoothed height.
pub open spec fn smoothed_sum(m: &HeightMap, enc: HeightEncoding, res: int, x: int, y: int) -> int {
    sample_units(m, enc, res, x - 1, y - 1) + sample_units(m, enc, res, x, y - 1)
        + sample_units(m, enc, res, x + 1, y - 1) + sample_units(m, enc, res, x - 1, y)
        + sample_units(m, enc, res, x, y) + sample_units(m, enc, res, x + 1, y)
        + sample_units(m, enc, res, x - 1, y + 1) + sample_units(m, enc, res, x, y + 1)
        + sample_units(m, enc, res, x + 1, y + 1)
}

/// The central differences of height around pixel `(px, py)` along each
/// axis, with neighbours kept inside the image.
pub open spec fn gradient_at(m: &HeightMap, enc: HeightEncoding, px: int, py: int) -> (int, int) {
    let w = m.width as int;
    let h = m.height as int;
    let right = if px + 1 > w - 1 { w - 1 } else { px + 1 };
    let left = if px >= 1 { px - 1 } else { 0 };
    let down = if py + 1 > h - 1 { h - 1 } else { py + 1 };
    let up = if py >= 1 { py - 1 } else { 0 };
    (m.units_at(enc, right, py) - m.units_at(enc, left, py), m.units_at(enc, px, down) - m.units_at(enc, px, up))
}

/// The gradient under mesh vertex `(x, y)`.
pub open spec fn vertex_gradient(m: &HeightMap, enc: HeightEncoding, res: int, x: int, y: int) -> (int, int) {
    gradient_at(m, enc, sample_index(x, m.width as int, res), sample_index(y, m.height as int, res))
}

/// The height sampled for mesh column `(x, y)`.
fn sample_units_of(m: &HeightMap, enc: HeightEncoding, res: usize, x: i64, y: i64) -> (v: i64)
    requires
        m.wf(),
        1 <= res <= MAX_RESOLUTION,
        -1 <= x <= res,
        -1 <= y <= res,
    ensures
        v == sample_units(m, enc, res as int, x as int, y as int),
        -0x80_0000 <= v <= 0x80_0000,
{
    let px = sample_of(x, m.width, res);
    let py = sample_of(y, m.height, res);
    units_at(m, enc, px, py)
}

/// Nine times the smoothed height at mesh vertex `(x, y)`.
pub fn smoothed_sum_of(m: &HeightMap, enc: HeightEncoding, res: usize, x: usize, y: usize) -> (v: i64)
    requires
        m.wf(),
        1 <= res <= MAX_RESOLUTION,
        x < res,
        y < res,
    ensures
        v == smoothed_sum(m, enc, res as int, x as int, y as int),
{
    let xi = x as i64;
    let yi = y as i64;
    sample_units_of(m, enc, res, xi - 1, yi - 1) + sample_units_of(m, enc, res, xi, yi - 1)
        + sample_units_of(m, enc, res, xi + 1, yi - 1) + sample_units_of(m, enc, res, xi - 1, yi)
        + sample_units_of(m, enc, res, xi, yi) + sample_units_of(m, enc, res, xi + 1, yi)
        + sample_units_of(m, enc, res, xi - 1, yi + 1) + sample_units_of(m, enc, res, xi, yi + 1)
        + sample_units_of(m, enc, res, xi + 1, yi + 1)
}

/// The gradient under mesh vertex `(x, y)`.
pub fn vertex_gradient_of(m: &HeightMap, enc: HeightEncoding, res: usize, x: usize, y: usize) -> (r: (i64, i64))
    requires
        m.wf(),
        1 <= res <= MAX_RESOLUTION,
        x < res,
        y < res,
    ensures
        r.0 == vertex_gradient(m, enc, res as int, x as int, y as int).0,
        r.1 == vertex_gradient(m, enc, res as int, x as int, y as int).1,
{
    let px = sample_of(x as i64, m.width, res);
    let py = sample_of(y as i64, m.height, res);
    let right = if px + 1 > m.width - 1 { m.width - 1 } else { px + 1 };
    let left = if px >= 1 { px - 1 } else { 0 };
    let down = if py + 1 > m.height - 1 { m.height - 1 } else { py + 1 };
    let up = if py >= 1 { py - 1 } else { 0 };
    (units_at(m, enc, right, py) - units_at(m, enc, left, py), units_at(m, enc, px, down) - units_at(m, enc, px, up))
}

} // verus!
