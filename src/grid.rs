use vstd::arithmetic::div_mod::lemma_fundamental_div_mod_converse;
use vstd::prelude::*;
use vstd::set_lib::{lemma_int_range, lemma_map_size, set_int_range};

verus! {

/// Largest side of the view window, in chunks. It keeps every window
/// coordinate and every slot index well inside machine integers.
pub const MAX_VIEW_DIAMETER: u32 = 1024;

/// Largest distance from the origin, in world units along each axis, at which
/// a viewpoint is accepted.
pub const MAX_WORLD_EXTENT: i32 = 1073741824;

/// An integer position on the chunk grid.
#[derive(Clone, Copy, Debug, PartialEq, Eq, Structural)]
pub struct ChunkCoord {
    pub x: i32,
    pub y: i32,
}

/// The distance of `v` from zero.
pub open spec fn abs(v: int) -> int {
    if v >= 0 { v } else { -v }
}

/// `position / chunk_size`, rounded to the nearest integer, halves away from zero.
pub open spec fn round_div(position: int, chunk_size: int) -> int {
    if position >= 0 {
        (2 * position + chunk_size) / (2 * chunk_size)
    } else {
        -((2 * (-position) + chunk_size) / (2 * chunk_size))
    }
}

/// The chunk that holds a viewpoint at world position `(wx, wz)`.
pub open spec fn center_of(wx: int, wz: int, chunk_size: int) -> ChunkCoord {
    ChunkCoord { x: round_div(wx, chunk_size) as i32, y: round_div(wz, chunk_size) as i32 }
}

/// Lowest coordinate, along one axis, of a window of side `d` around `c`.
pub open spec fn window_low(c: int, d: int) -> int {
    c - d / 2
}

/// Whether `p` lies in the square window of side `d` around `center`.
pub open spec fn in_window(center: ChunkCoord, d: int, p: ChunkCoord) -> bool {
    window_low(center.x as int, d) <= p.x < window_low(center.x as int, d) + d
        && window_low(center.y as int, d) <= p.y < window_low(center.y as int, d) + d
}

/// The set of chunks in the window of side `d` around `center`.
pub open spec fn window_set(center: ChunkCoord, d: int) -> Set<ChunkCoord> {
    Set::new(|p: ChunkCoord| in_window(center, d, p))
}

/// The slot that a chunk occupies in a pool of `d * d` slots: its coordinates
/// reduced modulo `d`. Any window of side `d` meets every slot exactly once.
pub open spec fn home_slot(p: ChunkCoord, d: int) -> int {
    (p.x as int % d) + d * (p.y as int % d)
}

/// The one coordinate along an axis, in `[low, low + d)`, congruent to `r` modulo `d`.
pub open spec fn axis_pick(low: int, r: int, d: int) -> int {
    low + (r - low) % d
}

/// The chunk of the window around `center` whose home is slot `j`.
pub open spec fn window_chunk(center: ChunkCoord, d: int, j: int) -> ChunkCoord {
    ChunkCoord {
        x: axis_pick(window_low(center.x as int, d), j % d, d) as i32,
        y: axis_pick(window_low(center.y as int, d), j / d, d) as i32,
    }
}

/// Whether a window of side `d` around `center` fits the machine integers.
pub open spec fn window_fits(center: ChunkCoord, d: int) -> bool {
    1 <= d <= MAX_VIEW_DIAMETER as int
        && -0x6000_0000 <= center.x <= 0x6000_0000
        && -0x6000_0000 <= center.y <= 0x6000_0000
}

proof fn lemma_axis_pick(low: int, r: int, d: int)
    requires
        d >= 1,
        0 <= r < d,
    ensures
        low <= axis_pick(low, r, d) < low + d,
        axis_pick(low, r, d) % d == r,
{
    let t = (r - low) % d;
    let q = (r - low) / d;
    vstd::arithmetic::div_mod::lemma_fundamental_div_mod(r - low, d);
    assert(low + t == (-q) * d + r) by (nonlinear_arith)
        requires r - low == d * q + t;
    lemma_fundamental_div_mod_converse(low + t, d, -q, r);
}

proof fn lemma_axis_pick_inverse(low: int, v: int, d: int)
    requires
        d >= 1,
        low <= v < low + d,
    ensures
        axis_pick(low, v % d, d) == v,
{
    let r = v % d;
    let q = v / d;
    vstd::arithmetic::div_mod::lemma_fundamental_div_mod(v, d);
    assert(r - low == (-q) * d + (v - low)) by (nonlinear_arith)
        requires v == d * q + r;
    lemma_fundamental_div_mod_converse(r - low, d, -q, v - low);
}

/// Every chunk's home slot is in the pool.
pub proof fn lemma_home_slot_range(p: ChunkCoord, d: int)
    requires
        d >= 1,
    ensures
        0 <= home_slot(p, d) < d * d,
{
    let a = p.x as int % d;
    let b = p.y as int % d;
    assert(0 <= a + d * b < d * d) by (nonlinear_arith)
        requires 0 <= a < d, 0 <= b < d;
}

/// Slot `j` of the pool holds, after the window settles around `center`, a
/// chunk of that window whose home is `j`.
pub proof fn lemma_window_chunk(center: ChunkCoord, d: int, j: int)
    requires
        window_fits(center, d),
        0 <= j < d * d,
    ensures
        in_window(center, d, window_chunk(center, d, j)),
        home_slot(window_chunk(center, d, j), d) == j,
{
    vstd::arithmetic::div_mod::lemma_fundamental_div_mod(j, d);
    assert(0 <= j / d < d) by (nonlinear_arith)
        requires j == d * (j / d) + (j % d), 0 <= j % d < d, 0 <= j < d * d, d >= 1;
    assert(0 <= j % d < d);
    lemma_axis_pick(window_low(center.x as int, d), j % d, d);
    lemma_axis_pick(window_low(center.y as int, d), j / d, d);
}

/// A chunk of the window is the one that the window puts in its home slot.
pub proof fn lemma_home_in_window(center: ChunkCoord, d: int, p: ChunkCoord)
    requires
        window_fits(center, d),
        in_window(center, d, p),
    ensures
        0 <= home_slot(p, d) < d * d,
        window_chunk(center, d, home_slot(p, d)) == p,
{
    let j = home_slot(p, d);
    let a = p.x as int % d;
    let b = p.y as int % d;
    assert(0 <= j < d * d) by (nonlinear_arith)
        requires j == a + d * b, 0 <= a < d, 0 <= b < d;
    assert(j == b * d + a) by (nonlinear_arith)
        requires j == a + d * b;
    lemma_fundamental_div_mod_converse(j, d, b, a);
    lemma_axis_pick_inverse(window_low(center.x as int, d), p.x as int, d);
    lemma_axis_pick_inverse(window_low(center.y as int, d), p.y as int, d);
}

/// The chunks `(x, y)` with `y` in `[low, low + d)`: one column.
pub open spec fn column(x: int, low: int, d: int) -> Set<ChunkCoord> {
    Set::new(|p: ChunkCoord| p.x == x && low <= p.y < low + d)
}

/// The chunks `(x, y)` with `x` in `[low, low + d)`: one row.
pub open spec fn row(y: int, low: int, d: int) -> Set<ChunkCoord> {
    Set::new(|p: ChunkCoord| p.y == y && low <= p.x < low + d)
}

/// A column or a row of a window of side `d` holds `d` chunks.
pub proof fn lemma_line_len(fixed: int, low: int, d: int, vertical: bool)
    requires
        d >= 0,
        -0x8000_0000 <= fixed < 0x8000_0000,
        -0x8000_0000 <= low,
        low + d <= 0x8000_0000,
    ensures
        vertical ==> column(fixed, low, d).finite() && column(fixed, low, d).len() == d,
        !vertical ==> row(fixed, low, d).finite() && row(fixed, low, d).len() == d,
{
    lemma_int_range(low, low + d);
    let r = set_int_range(low, low + d);
    if vertical {
        let f = |y: int| ChunkCoord { x: fixed as i32, y: y as i32 };
        assert(r.map(f) =~= column(fixed, low, d)) by {
            assert forall|p: ChunkCoord| column(fixed, low, d).contains(p) implies r.map(f).contains(p) by {
                assert(r.contains(p.y as int));
                assert(f(p.y as int) == p);
            }
        }
        lemma_map_size(r, column(fixed, low, d), f);
    } else {
        let f = |x: int| ChunkCoord { x: x as i32, y: fixed as i32 };
        assert(r.map(f) =~= row(fixed, low, d)) by {
            assert forall|p: ChunkCoord| row(fixed, low, d).contains(p) implies r.map(f).contains(p) by {
                assert(r.contains(p.x as int));
                assert(f(p.x as int) == p);
            }
        }
        lemma_map_size(r, row(fixed, low, d), f);
    }
}

/// Moving the window one chunk along either axis: `d` chunks, one edge
/// column or row, leave it, and `d` chunks, the opposite edge, enter it.
pub proof fn lemma_window_step(center: ChunkCoord, next: ChunkCoord, d: int)
    requires
        window_fits(center, d),
        window_fits(next, d),
        (next.x == center.x + 1 && next.y == center.y) || (next.x == center.x && next.y == center.y + 1),
    ensures
        next.x == center.x + 1 ==> window_set(center, d).difference(window_set(next, d))
            == column(window_low(center.x as int, d), window_low(center.y as int, d), d),
        next.x == center.x + 1 ==> window_set(next, d).difference(window_set(center, d))
            == column(window_low(center.x as int, d) + d, window_low(center.y as int, d), d),
        next.y == center.y + 1 ==> window_set(center, d).difference(window_set(next, d))
            == row(window_low(center.y as int, d), window_low(center.x as int, d), d),
        next.y == center.y + 1 ==> window_set(next, d).difference(window_set(center, d))
            == row(window_low(center.y as int, d) + d, window_low(center.x as int, d), d),
        window_set(center, d).difference(window_set(next, d)).finite(),
        window_set(center, d).difference(window_set(next, d)).len() == d,
        window_set(next, d).difference(window_set(center, d)).finite(),
        window_set(next, d).difference(window_set(center, d)).len() == d,
{
    let a = window_set(center, d);
    let b = window_set(next, d);
    let lx = window_low(center.x as int, d);
    let ly = window_low(center.y as int, d);
    if next.x == center.x + 1 {
        assert(window_low(next.x as int, d) == lx + 1);
        assert(a.difference(b) =~= column(lx, ly, d));
        assert(b.difference(a) =~= column(lx + d, ly, d));
        lemma_line_len(lx, ly, d, true);
        lemma_line_len(lx + d, ly, d, true);
    } else {
        assert(window_low(next.y as int, d) == ly + 1);
        assert(a.difference(b) =~= row(ly, lx, d));
        assert(b.difference(a) =~= row(ly + d, lx, d));
        lemma_line_len(ly, lx, d, false);
        lemma_line_len(ly + d, lx, d, false);
    }
}

/// Moving a viewpoint by one chunk along an axis moves its chunk by one,
/// except from exactly half a chunk below zero, where rounding away from zero
/// jumps two.
pub proof fn lemma_round_div_step(p: int, s: int)
    requires
        s >= 1,
        2 * p != -s,
    ensures
        round_div(p + s, s) == round_div(p, s) + 1,
{
    if p >= 0 {
        let q = (2 * p + s) / (2 * s);
        let r = (2 * p + s) % (2 * s);
        vstd::arithmetic::div_mod::lemma_fundamental_div_mod(2 * p + s, 2 * s);
        assert(2 * (p + s) + s == (q + 1) * (2 * s) + r) by (nonlinear_arith)
            requires 2 * p + s == 2 * s * q + r;
        lemma_fundamental_div_mod_converse(2 * (p + s) + s, 2 * s, q + 1, r);
    } else if p + s < 0 {
        let a = -(p + s);
        let q = (2 * a + s) / (2 * s);
        let r = (2 * a + s) % (2 * s);
        vstd::arithmetic::div_mod::lemma_fundamental_div_mod(2 * a + s, 2 * s);
        assert(2 * (-p) + s == (q + 1) * (2 * s) + r) by (nonlinear_arith)
            requires 2 * a + s == 2 * s * q + r, a == -(p + s);
        lemma_fundamental_div_mod_converse(2 * (-p) + s, 2 * s, q + 1, r);
    } else if p + s == 0 {
        lemma_fundamental_div_mod_converse(2 * (-p) + s, 2 * s, 1, s);
        lemma_fundamental_div_mod_converse(2 * (p + s) + s, 2 * s, 0, s);
    } else {
        let a = -p;
        if 2 * a > s {
            lemma_fundamental_div_mod_converse(2 * a + s, 2 * s, 1, 2 * a - s);
            lemma_fundamental_div_mod_converse(2 * (p + s) + s, 2 * s, 0, 2 * (p + s) + s);
        } else {
            lemma_fundamental_div_mod_converse(2 * a + s, 2 * s, 0, 2 * a + s);
            lemma_fundamental_div_mod_converse(2 * (p + s) + s, 2 * s, 1, 2 * (p + s) - s);
        }
    }
}

/// `v` reduced modulo `d` into `[0, d)`.
pub fn euclid_mod(v: i64, d: u32) -> (r: u32)
    requires
        d >= 1,
    ensures
        r as int == v as int % d as int,
{
    if v >= 0 {
        let m = (v as u64) % (d as u64);
        m as u32
    } else {
        let a: u64 = (-(v as i128)) as u64;
        let m: u64 = a % (d as u64);
        proof {
            vstd::arithmetic::div_mod::lemma_fundamental_div_mod(a as int, d as int);
        }
        if m == 0 {
            proof {
                let q = a as int / d as int;
                assert(v as int == (-q) * d as int + 0) by (nonlinear_arith)
                    requires a as int == d as int * q + 0, v as int == -(a as int);
                lemma_fundamental_div_mod_converse(v as int, d as int, -q, 0);
            }
            0
        } else {
            proof {
                let q = a as int / d as int;
                assert(v as int == (-q - 1) * d as int + (d as int - m as int)) by (nonlinear_arith)
                    requires a as int == d as int * q + m as int, v as int == -(a as int);
                lemma_fundamental_div_mod_converse(v as int, d as int, -q - 1, d as int - m as int);
            }
            (d as u64 - m) as u32
        }
    }
}

pub proof fn lemma_round_div_bound(a: int, s: int)
    requires
        a >= 0,
        s >= 1,
    ensures
        0 <= (2 * a + s) / (2 * s) <= a,
{
    vstd::arithmetic::div_mod::lemma_fundamental_div_mod(2 * a + s, 2 * s);
    let q = (2 * a + s) / (2 * s);
    let r = (2 * a + s) % (2 * s);
    assert(0 <= q <= a) by (nonlinear_arith)
        requires 2 * a + s == 2 * s * q + r, 0 <= r < 2 * s, a >= 0, s >= 1;
}

/// The chunk-space coordinate of a world position along one axis.
pub fn chunk_axis(position: i32, chunk_size: u32) -> (r: i32)
    requires
        chunk_size >= 1,
    ensures
        r as int == round_div(position as int, chunk_size as int),
        -abs(position as int) <= r as int <= abs(position as int),
{
    let s = chunk_size as i64;
    let p = position as i64;
    if p >= 0 {
        proof {
            lemma_round_div_bound(p as int, s as int);
        }
        ((2 * p + s) / (2 * s)) as i32
    } else {
        proof {
            lemma_round_div_bound(-p as int, s as int);
        }
        (-((2 * (-p) + s) / (2 * s))) as i32
    }
}

/// The chunk that holds a viewpoint at world position `(wx, wz)`.
pub fn chunk_of_viewpoint(wx: i32, wz: i32, chunk_size: u32) -> (r: ChunkCoord)
    requires
        chunk_size >= 1,
    ensures
        r == center_of(wx as int, wz as int, chunk_size as int),
        -abs(wx as int) <= r.x <= abs(wx as int),
        -abs(wz as int) <= r.y <= abs(wz as int),
{
    ChunkCoord { x: chunk_axis(wx, chunk_size), y: chunk_axis(wz, chunk_size) }
}

/// The home slot of `p` in a pool of `d * d` slots.
pub fn home_slot_of(p: ChunkCoord, d: u32) -> (r: usize)
    requires
        1 <= d <= MAX_VIEW_DIAMETER,
    ensures
        r as int == home_slot(p, d as int),
        r < d * d,
{
    let a = euclid_mod(p.x as i64, d);
    let b = euclid_mod(p.y as i64, d);
    assert((a as int + d as int * b as int) < (d as int * d as int)) by (nonlinear_arith)
        requires a < d, b < d, d >= 1;
    assert((d as int * b as int) <= (d as int * d as int)) by (nonlinear_arith)
        requires b < d, d >= 1;
    assert((d as int * d as int) <= 0x10_0000) by (nonlinear_arith)
        requires 1 <= d <= 1024;
    (a as usize) + (d as usize) * (b as usize)
}

/// The chunk of the window around `center` whose home is slot `j`.
pub fn window_chunk_of(center: ChunkCoord, d: u32, j: usize) -> (r: ChunkCoord)
    requires
        window_fits(center, d as int),
        j < d * d,
    ensures
        r == window_chunk(center, d as int, j as int),
        in_window(center, d as int, r),
        home_slot(r, d as int) == j,
{
    proof {
        lemma_window_chunk(center, d as int, j as int);
    }
    let low_x = center.x as i64 - (d / 2) as i64;
    let low_y = center.y as i64 - (d / 2) as i64;
    proof {
        vstd::arithmetic::div_mod::lemma_fundamental_div_mod(j as int, d as int);
        assert(0 <= j as int / d as int <= j as int) by (nonlinear_arith)
            requires j as int == d as int * (j as int / d as int) + (j as int % d as int),
                0 <= j as int % d as int, d >= 1, j >= 0;
        assert((d as int * d as int) <= 0x10_0000) by (nonlinear_arith)
            requires 1 <= d <= 1024;
    }
    let rx = (j % (d as usize)) as i64;
    let ry = (j / (d as usize)) as i64;
    let x = low_x + euclid_mod(rx - low_x, d) as i64;
    let y = low_y + euclid_mod(ry - low_y, d) as i64;
    ChunkCoord { x: x as i32, y: y as i32 }
}

} // verus!
