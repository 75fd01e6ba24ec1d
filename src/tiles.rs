use crate::grid::ChunkCoord;
use vstd::arithmetic::power2::{lemma2_to64, lemma_pow2_strictly_increases, lemma_pow2_unfold, pow2};
use vstd::prelude::*;

verus! {

/// Largest zoom level of the remote tile service that the remap accepts.
pub const MAX_ZOOM: u32 = 31;

/// `n / 2`, rounded toward zero.
pub open spec fn half_toward_zero(n: int) -> int {
    if n >= 0 {
        n / 2
    } else {
        -((-n) / 2)
    }
}

/// `v` limited to `[lo, hi]`.
pub open spec fn clamp(v: int, lo: int, hi: int) -> int {
    if v < lo {
        lo
    } else if v > hi {
        hi
    } else {
        v
    }
}

/// The tile of the remote service, along one axis, that serves chunk
/// coordinate `c` at `zoom`: `c + (2^zoom - 1) / 2`, rounded toward zero and
/// limited to the service's index range `[0, 2^zoom - 1]`.
pub open spec fn tile_index(c: int, zoom: nat) -> int {
    clamp(half_toward_zero(2 * c + pow2(zoom) - 1), 0, pow2(zoom) - 1)
}

/// `2^zoom`.
fn two_pow(zoom: u32) -> (r: u64)
    requires
        zoom <= MAX_ZOOM,
    ensures
        r == pow2(zoom as nat),
        1 <= r <= 0x8000_0000,
{
    let mut r: u64 = 1;
    let mut i: u32 = 0;
    proof {
        lemma2_to64();
    }
    while i < zoom
        invariant
            i <= zoom <= MAX_ZOOM,
            r == pow2(i as nat),
            pow2(31) == 0x8000_0000,
        decreases zoom - i,
    {
        proof {
            lemma_pow2_unfold((i + 1) as nat);
            if i + 1 < 31 {
                lemma_pow2_strictly_increases((i + 1) as nat, 31);
            }
        }
        r = r * 2;
        i = i + 1;
    }
    proof {
        if zoom < 31 {
            lemma_pow2_strictly_increases(zoom as nat, 31);
        }
        vstd::arithmetic::power2::lemma_pow2_pos(zoom as nat);
    }
    r
}

/// The tile index, along one axis, of chunk coordinate `c` at `zoom`.
pub fn tile_index_of(c: i32, zoom: u32) -> (r: u32)
    requires
        zoom <= MAX_ZOOM,
    ensures
        r == tile_index(c as int, zoom as nat),
{
    let p = two_pow(zoom) as i64;
    let n: i64 = 2 * (c as i64) + p - 1;
    let h: i64 = if n >= 0 { n / 2 } else { -((-n) / 2) };
    if h < 0 {
        0
    } else if h > p - 1 {
        (p - 1) as u32
    } else {
        h as u32
    }
}

/// The tile `(x, y)` of the remote service that serves chunk `c` at `zoom`.
pub fn tile_of_chunk(c: ChunkCoord, zoom: u32) -> (r: (u32, u32))
    requires
        zoom <= MAX_ZOOM,
    ensures
        r.0 == tile_index(c.x as int, zoom as nat),
        r.1 == tile_index(c.y as int, zoom as nat),
{
    (tile_index_of(c.x, zoom), tile_index_of(c.y, zoom))
}

/// Where a generation job gets its heightmap.
#[derive(Clone, Copy, Debug, PartialEq, Eq, Structural)]
pub enum TileSource {
    /// The tile is in the disk cache: decode it from there.
    Cache,
    /// Fetch the tile from the remote service, store it in the cache, then
    /// decode it.
    Remote,
    /// No cached tile and no access credential: the job yields no mesh.
    Unavailable,
}

/// Whether a job that starts with this source calls the remote service.
pub open spec fn fetches(s: TileSource) -> bool {
    s == TileSource::Remote
}

/// The first step of a job: a tile in the disk cache is always used, without
/// any network call; otherwise the remote service is asked, but only with an
/// access credential.
pub fn plan_tile(cached: bool, has_credential: bool) -> (r: TileSource)
    ensures
        cached ==> r == TileSource::Cache,
        cached ==> !fetches(r),
        !cached && has_credential ==> r == TileSource::Remote,
        !cached && !has_credential ==> r == TileSource::Unavailable,
{
    if cached {
        TileSource::Cache
    } else if has_credential {
        TileSource::Remote
    } else {
        TileSource::Unavailable
    }
}

} // verus!
