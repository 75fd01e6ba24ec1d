use crate::heightmap::{
    denominator, gradient_at, height_denominator, sample_index, sample_units, smoothed_sum,
    smoothed_sum_of, vertex_gradient, vertex_gradient_of, HeightEncoding, HeightMap,
    MAX_RESOLUTION,
};
use vstd::arithmetic::div_mod::lemma_fundamental_div_mod_converse;
use vstd::prelude::*;

verus! {

/// A square terrain mesh in exact integer form, vertices row by row. Vertex
/// `k` stands at column `k % resolution` and row `k / resolution` of a
/// uniform grid spanning the chunk; its height is
/// `heights[k] / height_divisor` units.
pub struct TerrainMesh {
    pub resolution: usize,
    pub heights: Vec<i64>,
    pub height_divisor: i64,
    /// Per vertex, a vector along the surface normal, not normalized.
    pub normals: Vec<(i64, i64, i64)>,
    /// Triangles, three vertex numbers each.
    pub indices: Vec<u32>,
}

/// Vertex number `c` (of six) of quad `q` in a grid of `res` vertices a
/// side: two triangles, `(a, below, below + 1)` and `(a, below + 1, a + 1)`,
/// wound the same way.
pub open spec fn quad_corner(res: int, q: int, c: int) -> int {
    let a = (q / (res - 1)) * res + q % (res - 1);
    if c == 0 || c == 3 {
        a
    } else if c == 1 {
        a + res
    } else if c == 2 || c == 4 {
        a + res + 1
    } else {
        a + 1
    }
}

/// Entry `t` of the triangle list of a grid of `res` vertices a side.
pub open spec fn grid_index(res: int, t: int) -> int {
    quad_corner(res, t / 6, t % 6)
}

/// A vector along the surface normal for height differences `g` across a
/// `width` by `height` heightmap whose heights have denominator `den`: the
/// cross product of the two tangents, in world axes, with y up.
pub open spec fn normal_dir(g: (int, int), width: int, height: int, den: int) -> (int, int, int) {
    (g.0 * width, den, -(g.1 * height))
}

/// Whether a normal vector points straight up.
pub open spec fn is_up(n: (i64, i64, i64)) -> bool {
    n.0 == 0 && n.2 == 0 && n.1 > 0
}

/// The triangle list is the one of a grid of `res` vertices a side.
pub open spec fn indices_ok(res: int, s: Seq<u32>) -> bool {
    &&& s.len() == 6 * (res - 1) * (res - 1)
    &&& forall|t: int| 0 <= t < s.len() ==> #[trigger] s[t] == grid_index(res, t)
}

proof fn lemma_quad_corner_bound(res: int, x: int, y: int, c: int)
    requires
        2 <= res <= MAX_RESOLUTION,
        0 <= x < res - 1,
        0 <= y < res - 1,
        0 <= c < 6,
    ensures
        quad_corner(res, y * (res - 1) + x, c) == y * res + x + (if c == 0 || c == 3 { 0 } else if c == 1 { res } else if c == 2 || c == 4 { res + 1 } else { 1 }),
        0 <= y * res + x,
        y * res + x + res + 1 < res * res,
        res * res <= 0x100_0000,
{
    lemma_fundamental_div_mod_converse(y * (res - 1) + x, res - 1, y, x);
    assert(y * res + x + res + 1 < res * res) by (nonlinear_arith)
        requires 0 <= x < res - 1, 0 <= y < res - 1;
    assert(0 <= y * res + x) by (nonlinear_arith)
        requires 0 <= x, 0 <= y, res >= 0;
    assert(res * res <= 0x100_0000) by (nonlinear_arith)
        requires 2 <= res <= 4096;
}

/// The triangle list of a grid of `res` vertices a side.
pub fn grid_indices(res: usize) -> (r: Vec<u32>)
    requires
        2 <= res <= MAX_RESOLUTION,
    ensures
        indices_ok(res as int, r@),
{
    let mut r: Vec<u32> = Vec::new();
    let n = res - 1;
    let mut y: usize = 0;
    let mut q: usize = 0;
    while y < n
        invariant
            n == res - 1,
            2 <= res <= MAX_RESOLUTION,
            0 <= y <= n,
            q == y * n,
            r@.len() == 6 * q,
            forall|t: int| 0 <= t < r@.len() ==> #[trigger] r@[t] == grid_index(res as int, t),
        decreases n - y,
    {
        let mut x: usize = 0;
        proof {
            assert((y as int + 1) * (n as int) <= n as int * n as int) by (nonlinear_arith)
                requires y < n;
            assert(n as int * n as int <= 0x100_0000) by (nonlinear_arith)
                requires n <= 4096;
        }
        while x < n
            invariant
                n == res - 1,
                2 <= res <= MAX_RESOLUTION,
                0 <= y < n,
                0 <= x <= n,
                q == y * n + x,
                (y as int + 1) * (n as int) <= 0x100_0000,
                r@.len() == 6 * q,
                forall|t: int| 0 <= t < r@.len() ==> #[trigger] r@[t] == grid_index(res as int, t),
            decreases n - x,
        {
            proof {
                lemma_quad_corner_bound(res as int, x as int, y as int, 0);
                lemma_quad_corner_bound(res as int, x as int, y as int, 1);
                lemma_quad_corner_bound(res as int, x as int, y as int, 2);
                lemma_quad_corner_bound(res as int, x as int, y as int, 3);
                lemma_quad_corner_bound(res as int, x as int, y as int, 4);
                lemma_quad_corner_bound(res as int, x as int, y as int, 5);
                assert((y as int) * (n as int) + (x as int) < (y as int + 1) * (n as int)) by (nonlinear_arith)
                    requires x < n;
            }
            let a = (y * res + x) as u32;
            let below = (y * res + x + res) as u32;
            let ghost r0 = r@;
            r.push(a);
            r.push(below);
            r.push(below + 1);
            r.push(a);
            r.push(below + 1);
            r.push(a + 1);
            proof {
                assert forall|t: int| 0 <= t < r@.len() implies #[trigger] r@[t] == grid_index(res as int, t) by {
                    if t >= 6 * q {
                        let c = t - 6 * q;
                        lemma_fundamental_div_mod_converse(t, 6, q as int, c);
                        assert(r@[t] == r@[6 * q + c]);
                    } else {
                        assert(r@[t] == r0[t]);
                    }
                }
            }
            x = x + 1;
            q = q + 1;
        }
        proof {
            assert(q == (y as int + 1) * (n as int)) by (nonlinear_arith)
                requires q == y * n + x, x == n;
        }
        y = y + 1;
    }
    proof {
        assert(6 * q == 6 * (res as int - 1) * (res as int - 1)) by (nonlinear_arith)
            requires q == y * n, y == n, n == res - 1;
    }
    r
}

/// `mesh` is the one built from `m` in encoding `enc` at resolution `res`:
/// each vertex holds the nine-sample sum around it, over nine times the
/// encoding's denominator, and the normal of the height differences under it.
pub open spec fn built_from(mesh: &TerrainMesh, m: &HeightMap, enc: HeightEncoding, res: int) -> bool {
    &&& mesh.resolution == res
    &&& mesh.height_divisor == 9 * height_denominator(enc)
    &&& mesh.heights@.len() == res * res
    &&& mesh.normals@.len() == res * res
    &&& forall|t: int| 0 <= t < res * res ==> #[trigger] mesh.heights@[t] == smoothed_sum(m, enc, res, t % res, t / res)
    &&& forall|t: int| 0 <= t < res * res ==> {
        let n = #[trigger] mesh.normals@[t];
        (n.0 as int, n.1 as int, n.2 as int) == normal_dir(
            vertex_gradient(m, enc, res, t % res, t / res),
            m.width as int,
            m.height as int,
            height_denominator(enc),
        )
    }
    &&& indices_ok(res, mesh.indices@)
}

proof fn lemma_vertex_in_grid(t: int, res: int)
    requires
        2 <= res,
        0 <= t < res * res,
    ensures
        0 <= t % res < res,
        0 <= t / res < res,
{
    vstd::arithmetic::div_mod::lemma_fundamental_div_mod(t, res);
    assert(0 <= t / res < res) by (nonlinear_arith)
        requires t == res * (t / res) + t % res, 0 <= t % res < res, 0 <= t < res * res;
}

/// The mesh of a chunk from its heightmap.
pub fn build_mesh(m: &HeightMap, enc: HeightEncoding, res: usize) -> (r: TerrainMesh)
    requires
        m.wf(),
        2 <= res <= MAX_RESOLUTION,
    ensures
        built_from(&r, m, enc, res as int),
{
    proof {
        assert(res as int * res as int <= 0x100_0000) by (nonlinear_arith)
            requires res <= 4096;
    }
    let total = res * res;
    let den = denominator(enc);
    let mut heights: Vec<i64> = Vec::new();
    let mut normals: Vec<(i64, i64, i64)> = Vec::new();
    let mut k: usize = 0;
    while k < total
        invariant
            m.wf(),
            2 <= res <= MAX_RESOLUTION,
            total == res * res,
            den == height_denominator(enc),
            0 <= k <= total,
            heights@.len() == k,
            normals@.len() == k,
            forall|t: int| 0 <= t < k ==> #[trigger] heights@[t] == smoothed_sum(m, enc, res as int, t % res as int, t / res as int),
            forall|t: int| 0 <= t < k ==> {
                let n = #[trigger] normals@[t];
                (n.0 as int, n.1 as int, n.2 as int) == normal_dir(
                    vertex_gradient(m, enc, res as int, t % res as int, t / res as int),
                    m.width as int,
                    m.height as int,
                    height_denominator(enc),
                )
            },
        decreases total - k,
    {
        proof {
            lemma_vertex_in_grid(k as int, res as int);
        }
        let x = k % res;
        let y = k / res;
        let h = smoothed_sum_of(m, enc, res, x, y);
        let g = vertex_gradient_of(m, enc, res, x, y);
        proof {
            assert(-0x100_0000 <= g.0 <= 0x100_0000);
            assert(-0x100_0000 <= g.1 <= 0x100_0000);
            assert(-0x100_0000_0000_0000 <= g.0 as int * m.width as int <= 0x100_0000_0000_0000) by (nonlinear_arith)
                requires -0x100_0000 <= g.0 <= 0x100_0000, m.width <= 0xffff_ffff;
            assert(-0x100_0000_0000_0000 <= g.1 as int * m.height as int <= 0x100_0000_0000_0000) by (nonlinear_arith)
                requires -0x100_0000 <= g.1 <= 0x100_0000, m.height <= 0xffff_ffff;
        }
        let ghost n0 = normals@;
        let ghost gv = vertex_gradient(m, enc, res as int, x as int, y as int);
        heights.push(h);
        normals.push((g.0 * (m.width as i64), den, -(g.1 * (m.height as i64))));
        proof {
            assert(normal_dir(gv, m.width as int, m.height as int, den as int) == (
                g.0 * m.width as int, den as int, -(g.1 * m.height as int)));
            assert forall|t: int| 0 <= t < k + 1 implies {
                let n = #[trigger] normals@[t];
                (n.0 as int, n.1 as int, n.2 as int) == normal_dir(
                    vertex_gradient(m, enc, res as int, t % res as int, t / res as int),
                    m.width as int,
                    m.height as int,
                    height_denominator(enc),
                )
            } by {
                if t < k {
                    assert(normals@[t] == n0[t]);
                }
            }
        }
        k = k + 1;
    }
    let indices = grid_indices(res);
    TerrainMesh { resolution: res, heights, height_divisor: 9 * den, normals, indices }
}

/// Every pixel of `m` carries the same three bytes.
pub open spec fn is_uniform(m: &HeightMap) -> bool {
    forall|i: int| 0 <= i < m.rgb@.len() ==> #[trigger] m.rgb@[i] == m.rgb@[i % 3]
}

proof fn lemma_uniform_units(m: &HeightMap, enc: HeightEncoding, x: int, y: int)
    requires
        m.wf(),
        is_uniform(m),
        0 <= x < m.width,
        0 <= y < m.height,
    ensures
        m.units_at(enc, x, y) == m.units_at(enc, 0, 0),
{
    let w = m.width as int;
    let h = m.height as int;
    let p = y * w + x;
    assert(0 <= p < w * h) by (nonlinear_arith)
        requires 0 <= x < w, 0 <= y < h, p == y * w + x;
    assert(3 * w * h == 3 * (w * h)) by (nonlinear_arith);
    let o = m.offset(x, y);
    lemma_fundamental_div_mod_converse(o, 3, p, 0);
    lemma_fundamental_div_mod_converse(o + 1, 3, p, 1);
    lemma_fundamental_div_mod_converse(o + 2, 3, p, 2);
    assert(m.rgb@[o] == m.rgb@[0]);
    assert(m.rgb@[o + 1] == m.rgb@[1]);
    assert(m.rgb@[o + 2] == m.rgb@[2]);
    assert(m.offset(0, 0) == 0);
}

proof fn lemma_sample_in_range(k: int, size: int, res: int)
    requires
        size >= 1,
        res >= 1,
    ensures
        0 <= sample_index(k, size, res) < size,
{
    if k >= 0 {
        assert(k * size >= 0) by (nonlinear_arith)
            requires k >= 0, size >= 1;
        vstd::arithmetic::div_mod::lemma_div_pos_is_pos(k * size, res);
    }
}

/// A mesh built from a uniform heightmap is level: every vertex has the same
/// height, and every normal points straight up.
pub proof fn lemma_uniform_map_builds_level_mesh(mesh: &TerrainMesh, m: &HeightMap, enc: HeightEncoding, res: int)
    requires
        m.wf(),
        is_uniform(m),
        2 <= res <= MAX_RESOLUTION,
        built_from(mesh, m, enc, res),
    ensures
        forall|t: int| 0 <= t < res * res ==> #[trigger] mesh.heights@[t] == 9 * m.units_at(enc, 0, 0),
        forall|t: int| 0 <= t < res * res ==> is_up(#[trigger] mesh.normals@[t]),
{
    let w = m.width as int;
    let h = m.height as int;
    assert forall|a: int, b: int| #![trigger sample_units(m, enc, res, a, b)]
        true implies sample_units(m, enc, res, a, b) == m.units_at(enc, 0, 0) by {
        lemma_sample_in_range(a, w, res);
        lemma_sample_in_range(b, h, res);
        lemma_uniform_units(m, enc, sample_index(a, w, res), sample_index(b, h, res));
    }
    assert forall|t: int| 0 <= t < res * res implies #[trigger] mesh.heights@[t] == 9 * m.units_at(enc, 0, 0) by {
        assert(mesh.heights@[t] == smoothed_sum(m, enc, res, t % res, t / res));
    }
    assert forall|t: int| 0 <= t < res * res implies is_up(#[trigger] mesh.normals@[t]) by {
        let px = sample_index(t % res, w, res);
        let py = sample_index(t / res, h, res);
        lemma_sample_in_range(t % res, w, res);
        lemma_sample_in_range(t / res, h, res);
        let right = if px + 1 > w - 1 { w - 1 } else { px + 1 };
        let left = if px >= 1 { px - 1 } else { 0 };
        let down = if py + 1 > h - 1 { h - 1 } else { py + 1 };
        let up = if py >= 1 { py - 1 } else { 0 };
        lemma_uniform_units(m, enc, right, py);
        lemma_uniform_units(m, enc, left, py);
        lemma_uniform_units(m, enc, px, down);
        lemma_uniform_units(m, enc, px, up);
        let g = gradient_at(m, enc, px, py);
        assert(g.0 == 0 && g.1 == 0);
        assert(g.0 * w == 0 && -(g.1 * h) == 0);
    }
}

/// The mesh used while no height data is at hand: level, at height zero,
/// with every normal straight up.
pub fn flat_mesh(res: usize) -> (r: TerrainMesh)
    requires
        2 <= res <= MAX_RESOLUTION,
    ensures
        r.resolution == res,
        r.height_divisor == 1,
        r.heights@.len() == res * res,
        r.normals@.len() == res * res,
        forall|t: int| 0 <= t < res * res ==> #[trigger] r.heights@[t] == 0,
        forall|t: int| 0 <= t < res * res ==> is_up(#[trigger] r.normals@[t]),
        indices_ok(res as int, r.indices@),
{
    proof {
        assert(res as int * res as int <= 0x100_0000) by (nonlinear_arith)
            requires res <= 4096;
    }
    let total = res * res;
    let mut heights: Vec<i64> = Vec::new();
    let mut normals: Vec<(i64, i64, i64)> = Vec::new();
    let mut k: usize = 0;
    while k < total
        invariant
            total == res * res,
            0 <= k <= total,
            heights@.len() == k,
            normals@.len() == k,
            forall|t: int| 0 <= t < k ==> #[trigger] heights@[t] == 0,
            forall|t: int| 0 <= t < k ==> is_up(#[trigger] normals@[t]),
        decreases total - k,
    {
        heights.push(0);
        normals.push((0, 1, 0));
        k = k + 1;
    }
    let indices = grid_indices(res);
    TerrainMesh { resolution: res, heights, height_divisor: 1, normals, indices }
}

} // verus!
