use crate::grid::{
    center_of, chunk_of_viewpoint, home_slot, home_slot_of, in_window, lemma_home_in_window,
    lemma_round_div_bound, lemma_round_div_step, lemma_window_step, window_chunk, window_chunk_of,
    window_fits, window_set, ChunkCoord, MAX_VIEW_DIAMETER, MAX_WORLD_EXTENT,
};
use vstd::prelude::*;

verus! {

/// An active terrain chunk, as held in its slot.
#[derive(Clone, Copy, Debug, PartialEq, Eq, Structural)]
pub struct Chunk {
    pub coord: ChunkCoord,
    /// True until a mesh for `coord` has been handed to the render sink.
    pub pending: bool,
}

/// A slot given a new chunk: the render side parks it out of view at the
/// chunk's world position until its mesh arrives.
#[derive(Clone, Copy, Debug, PartialEq, Eq, Structural)]
pub struct Placement {
    pub slot: usize,
    pub coord: ChunkCoord,
    pub world_x: i64,
    pub world_z: i64,
}

/// What one settle step changed.
pub struct TickReport {
    /// Chunks that left the window; their slots were recycled.
    pub released: Vec<ChunkCoord>,
    /// Slots that took a chunk that entered the window.
    pub placed: Vec<Placement>,
    /// Coordinates for which a generation job must now be started.
    pub submitted: Vec<ChunkCoord>,
}

/// A finished mesh waiting for upload to its slot.
pub struct ApplyEntry<M> {
    pub slot: usize,
    pub coord: ChunkCoord,
    pub world_x: i64,
    pub world_z: i64,
    pub mesh: M,
}

/// Why a configuration was refused at startup.
#[derive(Clone, Copy, Debug, PartialEq, Eq, Structural)]
pub enum ConfigError {
    ViewDiameterOutOfRange,
    ZeroChunkSize,
}

/// World position of the origin of chunk `c`.
pub open spec fn world_of(c: int, chunk_size: int) -> int {
    c * chunk_size
}

/// Whether `p` lies in the view window when the viewpoint is at `(wx, wz)`.
pub open spec fn visible(wx: int, wz: int, chunk_size: int, d: int, p: ChunkCoord) -> bool {
    in_window(center_of(wx, wz, chunk_size), d, p)
}

/// Whether a viewpoint lies in the part of the world that the grid covers.
pub open spec fn viewpoint_ok(wx: int, wz: int) -> bool {
    -MAX_WORLD_EXTENT <= wx <= MAX_WORLD_EXTENT && -MAX_WORLD_EXTENT <= wz <= MAX_WORLD_EXTENT
}

/// The coordinates of a sequence of placements.
pub open spec fn placed_coords(s: Seq<Placement>) -> Seq<ChunkCoord> {
    s.map_values(|e: Placement| e.coord)
}

/// The coordinates of a sequence of queue entries.
pub open spec fn entry_coords<M>(s: Seq<ApplyEntry<M>>) -> Seq<ChunkCoord> {
    s.map_values(|e: ApplyEntry<M>| e.coord)
}

/// The entries of `s`, in order, whose chunk `live` still holds.
pub open spec fn live_entries<M>(s: Seq<ApplyEntry<M>>, live: spec_fn(ChunkCoord) -> bool) -> Seq<ApplyEntry<M>>
    decreases s.len(),
{
    if s.len() == 0 {
        Seq::empty()
    } else {
        let rest = live_entries(s.drop_last(), live);
        if live(s.last().coord) {
            rest.push(s.last())
        } else {
            rest
        }
    }
}

proof fn lemma_world_fits(c: int, s: int)
    requires
        -0x8000_0000 <= c < 0x8000_0000,
        0 <= s < 0x1_0000_0000,
    ensures
        -0x8000_0000_0000_0000 < c * s < 0x8000_0000_0000_0000,
{
    assert(-0x8000_0000_0000_0000 < c * s < 0x8000_0000_0000_0000) by (nonlinear_arith)
        requires -0x8000_0000 <= c < 0x8000_0000, 0 <= s < 0x1_0000_0000;
}

/// The chunks in view from world position `(wx, wz)`.
pub open spec fn view_set(wx: int, wz: int, chunk_size: int, d: int) -> Set<ChunkCoord> {
    Set::new(|p: ChunkCoord| visible(wx, wz, chunk_size, d, p))
}

proof fn lemma_center_fits(wx: int, wz: int, s: int, d: int)
    requires
        s >= 1,
        1 <= d <= MAX_VIEW_DIAMETER,
        viewpoint_ok(wx, wz),
    ensures
        window_fits(center_of(wx, wz, s), d),
        view_set(wx, wz, s, d) == window_set(center_of(wx, wz, s), d),
{
    lemma_round_div_bound(if wx >= 0 { wx } else { -wx }, s);
    lemma_round_div_bound(if wz >= 0 { wz } else { -wz }, s);
    assert(view_set(wx, wz, s, d) =~= window_set(center_of(wx, wz, s), d));
}

/// Moving the viewpoint by one chunk along either axis changes the chunks in
/// view by exactly `d` leaving and `d` entering. The one exception comes from
/// rounding halves away from zero: from exactly half a chunk below zero on
/// the axis moved along, the viewpoint's chunk moves by two.
pub proof fn lemma_viewpoint_step(wx: int, wz: int, s: int, d: int, along_x: bool)
    requires
        s >= 1,
        1 <= d <= MAX_VIEW_DIAMETER,
        viewpoint_ok(wx, wz),
        along_x ==> viewpoint_ok(wx + s, wz) && 2 * wx != -s,
        !along_x ==> viewpoint_ok(wx, wz + s) && 2 * wz != -s,
    ensures
        ({
            let before = view_set(wx, wz, s, d);
            let after = if along_x { view_set(wx + s, wz, s, d) } else { view_set(wx, wz + s, s, d) };
            &&& before.difference(after).finite()
            &&& before.difference(after).len() == d
            &&& after.difference(before).finite()
            &&& after.difference(before).len() == d
        }),
{
    lemma_center_fits(wx, wz, s, d);
    if along_x {
        lemma_center_fits(wx + s, wz, s, d);
        lemma_round_div_step(wx, s);
        lemma_window_step(center_of(wx, wz, s), center_of(wx + s, wz, s), d);
    } else {
        lemma_center_fits(wx, wz + s, s, d);
        lemma_round_div_step(wz, s);
        lemma_window_step(center_of(wx, wz, s), center_of(wx, wz + s, s), d);
    }
}

/// `t` is `s`, or `s` with one more element at its end.
proof fn lemma_push_contains<T>(s: Seq<T>, t: Seq<T>, p: T)
    requires
        t == s || (t.len() == s.len() + 1 && t.drop_last() == s),
    ensures
        t == s ==> (t.contains(p) == s.contains(p)),
        t != s ==> (t.contains(p) == (s.contains(p) || t.last() == p)),
{
    if t != s {
        if s.contains(p) {
            let k = choose|k: int| 0 <= k < s.len() && s[k] == p;
            assert(t[k] == s[k]);
        }
        if t.contains(p) && t.last() != p {
            let k = choose|k: int| 0 <= k < t.len() && t[k] == p;
            assert(s[k] == t[k]);
        }
    }
}

/// Whether `c` is in `v`.
pub fn contains_coord(v: &Vec<ChunkCoord>, c: ChunkCoord) -> (r: bool)
    ensures
        r == v@.contains(c),
{
    let mut i: usize = 0;
    while i < v.len()
        invariant
            0 <= i <= v.len(),
            forall|k: int| 0 <= k < i ==> v@[k] != c,
        decreases v.len() - i,
    {
        if v[i] == c {
            return true;
        }
        i = i + 1;
    }
    false
}

/// The bookkeeping of terrain streaming, owned by the tick loop: a fixed pool
/// of `d * d` render slots, the coordinates with a generation job in flight,
/// and the meshes waiting for upload. Each chunk lives in its home slot (its
/// coordinates modulo `d`), so any window of side `d` fits the pool exactly.
pub struct StreamingState<M> {
    view_diameter: u32,
    chunk_size: u32,
    slots: Vec<Option<Chunk>>,
    in_flight: Vec<ChunkCoord>,
    queue: Vec<ApplyEntry<M>>,
}

impl<M> StreamingState<M> {
    /// Side of the view window, in chunks.
    pub closed spec fn diameter(&self) -> int {
        self.view_diameter as int
    }

    /// Side of a chunk, in world units.
    pub closed spec fn size(&self) -> int {
        self.chunk_size as int
    }

    /// Whether chunk `p` is active.
    pub closed spec fn is_active(&self, p: ChunkCoord) -> bool {
        let j = home_slot(p, self.view_diameter as int);
        0 <= j < self.slots@.len() && self.slots@[j] is Some && self.slots@[j]->Some_0.coord == p
    }

    /// Whether chunk `p` is active and still waits for its mesh.
    pub closed spec fn is_pending(&self, p: ChunkCoord) -> bool {
        self.is_active(p) && self.slots@[home_slot(p, self.view_diameter as int)]->Some_0.pending
    }

    /// The coordinates with a generation job in flight.
    pub closed spec fn in_flight_set(&self) -> Set<ChunkCoord> {
        self.in_flight@.to_set()
    }

    /// How many jobs are in flight for `c`.
    pub closed spec fn jobs_for(&self, c: ChunkCoord) -> nat {
        self.in_flight@.to_multiset().count(c)
    }

    /// At most one job is ever in flight for a coordinate: every operation
    /// keeps the state well formed, however often a coordinate is submitted,
    /// and a well-formed state has no coordinate in flight twice.
    pub proof fn lemma_one_job_per_coordinate(&self, c: ChunkCoord)
        requires
            self.wf(),
        ensures
            self.jobs_for(c) <= 1,
            self.jobs_for(c) == 1 <==> self.in_flight_set().contains(c),
    {
        self.in_flight@.lemma_multiset_has_no_duplicates();
        self.in_flight@.to_multiset_ensures();
    }

    /// A job that resolves without a mesh still clears its coordinate's
    /// marker and leaves its chunk waiting, so the next tick that still has
    /// the chunk in view submits the coordinate again. `after` is the state
    /// that `complete(c, None)` leaves from `before`; `next` and `submitted`
    /// are what a following `tick` at `(wx, wz)` leaves and reports.
    pub proof fn lemma_no_mesh_resubmits(
        before: Self,
        after: Self,
        next: Self,
        submitted: Seq<ChunkCoord>,
        c: ChunkCoord,
        wx: int,
        wz: int,
    )
        requires
            before.wf(),
            after.in_flight_set() == before.in_flight_set().remove(c),
            after.diameter() == before.diameter(),
            after.size() == before.size(),
            forall|p: ChunkCoord| #[trigger] after.is_active(p) == before.is_active(p),
            forall|p: ChunkCoord| #[trigger] after.is_pending(p) == before.is_pending(p),
            forall|p: ChunkCoord| #[trigger] next.is_pending(p) == (visible(wx, wz, after.size(), after.diameter(), p) && after.waits_after(p)),
            forall|p: ChunkCoord| #[trigger] submitted.contains(p) == (next.is_pending(p) && !after.in_flight_set().contains(p)),
        ensures
            !after.in_flight_set().contains(c),
            before.is_pending(c) && visible(wx, wz, before.size(), before.diameter(), c) ==> submitted.contains(c),
    {
        assert(after.is_pending(c) == before.is_pending(c));
        assert(next.is_pending(c) == (visible(wx, wz, after.size(), after.diameter(), c) && after.waits_after(c)));
        assert(submitted.contains(c) == (next.is_pending(c) && !after.in_flight_set().contains(c)));
    }

    /// The meshes waiting for upload, oldest first.
    pub closed spec fn queued(&self) -> Seq<ApplyEntry<M>> {
        self.queue@
    }

    /// The internal invariant: every chunk sits in its home slot, no
    /// coordinate is in flight twice, and queued entries name their home slot.
    pub closed spec fn wf(&self) -> bool {
        let d = self.view_diameter as int;
        &&& 1 <= d <= MAX_VIEW_DIAMETER
        &&& self.chunk_size >= 1
        &&& self.slots@.len() == d * d
        &&& forall|j: int|
            0 <= j < self.slots@.len() && (#[trigger] self.slots@[j]) is Some
                ==> home_slot(self.slots@[j]->Some_0.coord, d) == j
        &&& self.in_flight@.no_duplicates()
        &&& forall|k: int|
            0 <= k < self.queue@.len() ==> (#[trigger] self.queue@[k]).slot == home_slot(
                self.queue@[k].coord,
                d,
            )
    }

    /// A streaming state with every slot free, or the reason the
    /// configuration is refused.
    pub fn new(view_diameter: u32, chunk_size: u32) -> (r: Result<Self, ConfigError>)
        ensures
            view_diameter < 1 || view_diameter > MAX_VIEW_DIAMETER <==> r == Err::<Self, ConfigError>(ConfigError::ViewDiameterOutOfRange),
            1 <= view_diameter <= MAX_VIEW_DIAMETER && chunk_size == 0 <==> r == Err::<Self, ConfigError>(ConfigError::ZeroChunkSize),
            r matches Ok(s) ==> {
                &&& s.wf()
                &&& s.diameter() == view_diameter
                &&& s.size() == chunk_size
                &&& forall|p: ChunkCoord| !s.is_active(p)
                &&& s.in_flight_set() == Set::<ChunkCoord>::empty()
                &&& s.queued() == Seq::<ApplyEntry<M>>::empty()
            },
    {
        if view_diameter < 1 || view_diameter > MAX_VIEW_DIAMETER {
            return Err(ConfigError::ViewDiameterOutOfRange);
        }
        if chunk_size == 0 {
            return Err(ConfigError::ZeroChunkSize);
        }
        proof {
            assert((view_diameter as int * view_diameter as int) <= 0x10_0000) by (nonlinear_arith)
                requires 1 <= view_diameter <= 1024;
        }
        let n: usize = (view_diameter as usize) * (view_diameter as usize);
        let mut slots: Vec<Option<Chunk>> = Vec::new();
        while slots.len() < n
            invariant
                slots@.len() <= n,
                forall|j: int| 0 <= j < slots@.len() ==> slots@[j] is None,
            decreases n - slots@.len(),
        {
            slots.push(None);
        }
        let s = StreamingState {
            view_diameter,
            chunk_size,
            slots,
            in_flight: Vec::new(),
            queue: Vec::new(),
        };
        assert(s.in_flight@.to_set() =~= Set::<ChunkCoord>::empty());
        Ok(s)
    }

    /// Whether a chunk at `p` must wait for a mesh after the window settles
    /// with `p` in it: it is new, or was already waiting.
    pub closed spec fn waits_after(&self, p: ChunkCoord) -> bool {
        !self.is_active(p) || self.is_pending(p)
    }

    /// Settles the pool around a viewpoint at world position `(wx, wz)`:
    /// chunks that left the window free their slots, chunks that entered it
    /// take the freed slots, and a job is started for every chunk that still
    /// waits for a mesh and has none in flight.
    pub fn tick(&mut self, wx: i32, wz: i32) -> (r: TickReport)
        requires
            old(self).wf(),
            viewpoint_ok(wx as int, wz as int),
        ensures
            final(self).wf(),
            final(self).diameter() == old(self).diameter(),
            final(self).size() == old(self).size(),
            forall|p: ChunkCoord| #[trigger] final(self).is_active(p) == visible(wx as int, wz as int, old(self).size(), old(self).diameter(), p),
            forall|p: ChunkCoord| #[trigger] final(self).is_pending(p) == (visible(wx as int, wz as int, old(self).size(), old(self).diameter(), p) && old(self).waits_after(p)),
            forall|p: ChunkCoord| #[trigger] r.released@.contains(p) == (old(self).is_active(p) && !visible(wx as int, wz as int, old(self).size(), old(self).diameter(), p)),
            r.released@.no_duplicates(),
            forall|p: ChunkCoord| #[trigger] placed_coords(r.placed@).contains(p) == (visible(wx as int, wz as int, old(self).size(), old(self).diameter(), p) && !old(self).is_active(p)),
            placed_coords(r.placed@).no_duplicates(),
            forall|k: int| 0 <= k < r.placed@.len() ==> {
                let e = #[trigger] r.placed@[k];
                &&& e.slot == home_slot(e.coord, old(self).diameter())
                &&& e.world_x == world_of(e.coord.x as int, old(self).size())
                &&& e.world_z == world_of(e.coord.y as int, old(self).size())
            },
            forall|p: ChunkCoord| #[trigger] final(self).in_flight_set().contains(p) == (old(self).in_flight_set().contains(p) || final(self).is_pending(p)),
            forall|p: ChunkCoord| #[trigger] r.submitted@.contains(p) == (final(self).is_pending(p) && !old(self).in_flight_set().contains(p)),
            r.submitted@.no_duplicates(),
            final(self).queued() == old(self).queued(),
    {
        let ghost pre = *self;
        let ghost dd = self.view_diameter as int;
        let center = chunk_of_viewpoint(wx, wz, self.chunk_size);
        assert(window_fits(center, dd));
        let d = self.view_diameter;
        let size = self.chunk_size as i64;
        let n = self.slots.len();
        let mut released: Vec<ChunkCoord> = Vec::new();
        let mut placed: Vec<Placement> = Vec::new();
        let mut submitted: Vec<ChunkCoord> = Vec::new();
        let mut j: usize = 0;
        while j < n
            invariant
                0 <= j <= n,
                n == dd * dd,
                window_fits(center, dd),
                center == center_of(wx as int, wz as int, pre.chunk_size as int),
                d == pre.view_diameter,
                dd == d,
                size == pre.chunk_size,
                pre.wf(),
                self.view_diameter == pre.view_diameter,
                self.chunk_size == pre.chunk_size,
                self.queue@ == pre.queue@,
                self.slots@.len() == n,
                forall|i: int| 0 <= i < j ==> #[trigger] self.slots@[i] == Some(Chunk {
                    coord: window_chunk(center, dd, i),
                    pending: pre.waits_after(window_chunk(center, dd, i)),
                }),
                forall|i: int| j <= i < n ==> #[trigger] self.slots@[i] == pre.slots@[i],
                self.in_flight@.no_duplicates(),
                forall|p: ChunkCoord| #[trigger] self.in_flight@.contains(p) == (pre.in_flight@.contains(p) || (
                    in_window(center, dd, p) && home_slot(p, dd) < j && pre.waits_after(p))),
                released@.no_duplicates(),
                forall|p: ChunkCoord| #[trigger] released@.contains(p) == (pre.is_active(p) && !in_window(center, dd, p) && home_slot(p, dd) < j),
                placed_coords(placed@).no_duplicates(),
                forall|p: ChunkCoord| #[trigger] placed_coords(placed@).contains(p) == (in_window(center, dd, p) && !pre.is_active(p) && home_slot(p, dd) < j),
                forall|k: int| 0 <= k < placed@.len() ==> {
                    let e = #[trigger] placed@[k];
                    &&& e.slot == home_slot(e.coord, dd)
                    &&& e.world_x == world_of(e.coord.x as int, size as int)
                    &&& e.world_z == world_of(e.coord.y as int, size as int)
                },
                submitted@.no_duplicates(),
                forall|p: ChunkCoord| #[trigger] submitted@.contains(p) == (
                    in_window(center, dd, p) && home_slot(p, dd) < j && pre.waits_after(p) && !pre.in_flight@.contains(p)),
            decreases n - j,
        {
            let w = window_chunk_of(center, d, j);
            let cur = self.slots[j];
            let ghost old_released = released@;
            let ghost old_placed = placed@;
            let ghost old_submitted = submitted@;
            let ghost old_flight = self.in_flight@;
            proof {
                // Any chunk with home slot j that is in the window is w.
                assert forall|p: ChunkCoord| home_slot(p, dd) == j && in_window(center, dd, p) implies p == w by {
                    lemma_home_in_window(center, dd, p);
                }
            }
            let pending: bool;
            let keep: bool;
            match cur {
                Some(ch) => {
                    if ch.coord == w {
                        keep = true;
                        pending = ch.pending;
                    } else {
                        keep = false;
                        pending = true;
                        released.push(ch.coord);
                    }
                },
                None => {
                    keep = false;
                    pending = true;
                },
            }
            proof {
                lemma_world_fits(w.x as int, size as int);
                lemma_world_fits(w.y as int, size as int);
            }
            if !keep {
                self.slots.set(j, Some(Chunk { coord: w, pending: true }));
                placed.push(Placement {
                    slot: j,
                    coord: w,
                    world_x: (w.x as i64) * size,
                    world_z: (w.y as i64) * size,
                });
            }
            if pending && !contains_coord(&self.in_flight, w) {
                self.in_flight.push(w);
                submitted.push(w);
            }
            proof {
                assert(pre.slots@[j as int] == cur);
                assert(pre.waits_after(w) == pending);
                if cur is Some {
                    let q = cur->Some_0.coord;
                    assert(home_slot(q, dd) == j);
                    assert(pre.is_active(q));
                    assert(keep == (q == w));
                    if q != w {
                        assert(!in_window(center, dd, q));
                        assert(released@ == old_released.push(q));
                        assert(released@.drop_last() =~= old_released);
                    } else {
                        assert(released@ == old_released);
                    }
                } else {
                    assert(!keep);
                    assert(released@ == old_released);
                    assert(!pre.is_active(w));
                }
                assert forall|p: ChunkCoord| home_slot(p, dd) == j && pre.is_active(p) implies cur == Some(
                    pre.slots@[j as int]->Some_0) && cur->Some_0.coord == p by {}
                assert forall|p: ChunkCoord| #[trigger] released@.contains(p) == (pre.is_active(p) && !in_window(center, dd, p) && home_slot(p, dd) < j + 1) by {
                    assert(old_released.contains(p) == (pre.is_active(p) && !in_window(center, dd, p) && home_slot(p, dd) < j));
                    lemma_push_contains(old_released, released@, p);
                }
                if released@ != old_released {
                    assert forall|a: int, b: int| 0 <= a < b < released@.len() implies released@[a] != released@[b] by {
                        if b == released@.len() - 1 {
                            assert(old_released.contains(released@[a]));
                        }
                    }
                }
                let pc = placed_coords(placed@);
                let opc = placed_coords(old_placed);
                if !keep {
                    assert(pc =~= opc.push(w));
                    assert(pc.drop_last() =~= opc);
                } else {
                    assert(pc =~= opc);
                }
                assert forall|p: ChunkCoord| #[trigger] pc.contains(p) == (in_window(center, dd, p) && !pre.is_active(p) && home_slot(p, dd) < j + 1) by {
                    assert(opc.contains(p) == (in_window(center, dd, p) && !pre.is_active(p) && home_slot(p, dd) < j));
                    lemma_push_contains(opc, pc, p);
                }
                if !keep {
                    assert forall|a: int, b: int| 0 <= a < b < pc.len() implies pc[a] != pc[b] by {
                        if b == pc.len() - 1 {
                            assert(opc.contains(pc[a]));
                        }
                    }
                }
                let pushed = pending && !old_flight.contains(w);
                if pushed {
                    assert(self.in_flight@.drop_last() =~= old_flight);
                    assert(submitted@.drop_last() =~= old_submitted);
                } else {
                    assert(self.in_flight@ == old_flight);
                    assert(submitted@ == old_submitted);
                }
                assert forall|p: ChunkCoord| #[trigger] self.in_flight@.contains(p) == (pre.in_flight@.contains(p) || (
                    in_window(center, dd, p) && home_slot(p, dd) < j + 1 && pre.waits_after(p))) by {
                    assert(old_flight.contains(p) == (pre.in_flight@.contains(p) || (
                        in_window(center, dd, p) && home_slot(p, dd) < j && pre.waits_after(p))));
                    lemma_push_contains(old_flight, self.in_flight@, p);
                }
                if self.in_flight@ != old_flight {
                    assert forall|a: int, b: int| 0 <= a < b < self.in_flight@.len() implies self.in_flight@[a] != self.in_flight@[b] by {
                        if b == self.in_flight@.len() - 1 {
                            assert(old_flight.contains(self.in_flight@[a]));
                        }
                    }
                }
                assert forall|p: ChunkCoord| #[trigger] submitted@.contains(p) == (
                    in_window(center, dd, p) && home_slot(p, dd) < j + 1 && pre.waits_after(p) && !pre.in_flight@.contains(p)) by {
                    assert(old_submitted.contains(p) == (
                        in_window(center, dd, p) && home_slot(p, dd) < j && pre.waits_after(p) && !pre.in_flight@.contains(p)));
                    assert(old_flight.contains(p) == (pre.in_flight@.contains(p) || (
                        in_window(center, dd, p) && home_slot(p, dd) < j && pre.waits_after(p))));
                    lemma_push_contains(old_submitted, submitted@, p);
                }
                if submitted@ != old_submitted {
                    assert forall|a: int, b: int| 0 <= a < b < submitted@.len() implies submitted@[a] != submitted@[b] by {
                        if b == submitted@.len() - 1 {
                            assert(old_submitted.contains(submitted@[a]));
                        }
                    }
                }
            }
            j = j + 1;
        }
        proof {
            assert forall|p: ChunkCoord| in_window(center, dd, p) implies 0 <= #[trigger] home_slot(p, dd) < n
                && window_chunk(center, dd, home_slot(p, dd)) == p by {
                lemma_home_in_window(center, dd, p);
            }
            assert forall|i: int| 0 <= i < n implies in_window(center, dd, window_chunk(center, dd, i))
                && home_slot(window_chunk(center, dd, i), dd) == i by {
                crate::grid::lemma_window_chunk(center, dd, i);
            }
            assert forall|p: ChunkCoord| #[trigger] self.is_active(p) == in_window(center, dd, p) by {
                if self.is_active(p) {
                    let i = home_slot(p, dd);
                    assert(self.slots@[i] == Some(Chunk { coord: window_chunk(center, dd, i), pending: pre.waits_after(window_chunk(center, dd, i)) }));
                }
            }
            assert forall|p: ChunkCoord| #[trigger] self.is_pending(p) == (in_window(center, dd, p) && pre.waits_after(p)) by {
                if in_window(center, dd, p) {
                    let i = home_slot(p, dd);
                    assert(self.slots@[i] == Some(Chunk { coord: window_chunk(center, dd, i), pending: pre.waits_after(window_chunk(center, dd, i)) }));
                }
            }
            assert forall|p: ChunkCoord| #[trigger] self.in_flight@.to_set().contains(p) == (pre.in_flight@.to_set().contains(p) || self.is_pending(p)) by {
                if in_window(center, dd, p) {
                    lemma_home_in_window(center, dd, p);
                }
            }
            assert forall|p: ChunkCoord| #[trigger] released@.contains(p) == (pre.is_active(p) && !in_window(center, dd, p)) by {
                if pre.is_active(p) {
                    assert(home_slot(p, dd) < n);
                }
            }
            assert forall|p: ChunkCoord| #[trigger] placed_coords(placed@).contains(p) == (in_window(center, dd, p) && !pre.is_active(p)) by {
                if in_window(center, dd, p) {
                    lemma_home_in_window(center, dd, p);
                }
            }
            assert forall|p: ChunkCoord| #[trigger] submitted@.contains(p) == (self.is_pending(p) && !pre.in_flight@.to_set().contains(p)) by {
                if in_window(center, dd, p) {
                    lemma_home_in_window(center, dd, p);
                }
            }
        }
        TickReport { released, placed, submitted }
    }

    /// Marks `c` as having a job in flight. Returns false, changing nothing,
    /// when one already is.
    pub fn submit(&mut self, c: ChunkCoord) -> (r: bool)
        requires
            old(self).wf(),
        ensures
            final(self).wf(),
            r == !old(self).in_flight_set().contains(c),
            final(self).in_flight_set() == old(self).in_flight_set().insert(c),
            final(self).diameter() == old(self).diameter(),
            final(self).size() == old(self).size(),
            forall|p: ChunkCoord| #[trigger] final(self).is_active(p) == old(self).is_active(p),
            forall|p: ChunkCoord| #[trigger] final(self).is_pending(p) == old(self).is_pending(p),
            final(self).queued() == old(self).queued(),
    {
        if contains_coord(&self.in_flight, c) {
            assert(self.in_flight@.to_set() =~= self.in_flight@.to_set().insert(c));
            false
        } else {
            let ghost before = self.in_flight@;
            self.in_flight.push(c);
            proof {
                assert(self.in_flight@.drop_last() =~= before);
                assert forall|p: ChunkCoord| #[trigger] self.in_flight@.contains(p) == (before.contains(p) || p == c) by {
                    lemma_push_contains(before, self.in_flight@, p);
                }
                assert(self.in_flight@.to_set() =~= before.to_set().insert(c));
                assert forall|a: int, b: int| 0 <= a < b < self.in_flight@.len() implies self.in_flight@[a] != self.in_flight@[b] by {
                    if b == self.in_flight@.len() - 1 {
                        assert(before.contains(self.in_flight@[a]));
                    }
                }
            }
            true
        }
    }

    /// Takes the result of the job for `c`: the in-flight marker is cleared
    /// whatever the result, and a mesh is queued for upload only when the
    /// chunk at `c` is still active. Returns whether it was queued.
    pub fn complete(&mut self, c: ChunkCoord, mesh: Option<M>) -> (r: bool)
        requires
            old(self).wf(),
        ensures
            final(self).wf(),
            final(self).in_flight_set() == old(self).in_flight_set().remove(c),
            r == (mesh is Some && old(self).is_active(c)),
            r ==> final(self).queued().len() == old(self).queued().len() + 1
                && final(self).queued().drop_last() == old(self).queued()
                && final(self).queued().last().coord == c
                && final(self).queued().last().slot == home_slot(c, old(self).diameter())
                && final(self).queued().last().world_x == world_of(c.x as int, old(self).size())
                && final(self).queued().last().world_z == world_of(c.y as int, old(self).size())
                && Some(final(self).queued().last().mesh) == mesh,
            !r ==> final(self).queued() == old(self).queued(),
            final(self).diameter() == old(self).diameter(),
            final(self).size() == old(self).size(),
            forall|p: ChunkCoord| #[trigger] final(self).is_active(p) == old(self).is_active(p),
            forall|p: ChunkCoord| #[trigger] final(self).is_pending(p) == old(self).is_pending(p),
    {
        let ghost before = self.in_flight@;
        let mut i: usize = 0;
        while i < self.in_flight.len() && self.in_flight[i] != c
            invariant
                self.in_flight@ == before,
                0 <= i <= before.len(),
                forall|k: int| 0 <= k < i ==> before[k] != c,
            decreases before.len() - i,
        {
            i = i + 1;
        }
        if i < self.in_flight.len() {
            self.in_flight.remove(i);
            proof {
                let after = self.in_flight@;
                assert(before[i as int] == c);
                assert forall|p: ChunkCoord| #[trigger] after.contains(p) == (before.contains(p) && p != c) by {
                    if after.contains(p) {
                        let k = choose|k: int| 0 <= k < after.len() && after[k] == p;
                        if k < i {
                            assert(before[k] == p);
                        } else {
                            assert(before[k + 1] == p);
                        }
                    }
                    if before.contains(p) && p != c {
                        let k = choose|k: int| 0 <= k < before.len() && before[k] == p;
                        if k < i {
                            assert(after[k] == p);
                        } else {
                            assert(after[k - 1] == p);
                        }
                    }
                }
                assert(after.to_set() =~= before.to_set().remove(c));
                assert forall|a: int, b: int| 0 <= a < b < after.len() implies after[a] != after[b] by {
                    let a0 = if a < i { a } else { a + 1 };
                    let b0 = if b < i { b } else { b + 1 };
                    assert(before[a0] == after[a]);
                    assert(before[b0] == after[b]);
                }
            }
        } else {
            assert(before.to_set() =~= before.to_set().remove(c));
        }
        let d = self.view_diameter;
        let j = home_slot_of(c, d);
        let live = match self.slots[j] {
            Some(ch) => ch.coord == c,
            None => false,
        };
        match mesh {
            Some(m) => {
                if live {
                    let size = self.chunk_size as i64;
                    proof {
                        lemma_world_fits(c.x as int, size as int);
                        lemma_world_fits(c.y as int, size as int);
                    }
                    let ghost q0 = self.queue@;
                    self.queue.push(ApplyEntry {
                        slot: j,
                        coord: c,
                        world_x: (c.x as i64) * size,
                        world_z: (c.y as i64) * size,
                        mesh: m,
                    });
                    assert(self.queue@.drop_last() =~= q0);
                    true
                } else {
                    false
                }
            },
            None => false,
        }
    }

    /// The chunks that are active now, as a predicate.
    pub closed spec fn live(&self) -> spec_fn(ChunkCoord) -> bool {
        |p: ChunkCoord| self.is_active(p)
    }

    /// Takes, oldest first, up to `cap` queued meshes out of the queue. Of
    /// those, the ones whose chunk is still active are returned for upload and
    /// their chunks stop waiting; the others are dropped as stale.
    pub fn drain(&mut self, cap: usize) -> (r: Vec<ApplyEntry<M>>)
        requires
            old(self).wf(),
        ensures
            final(self).wf(),
            ({
                let k = if cap < old(self).queued().len() { cap as int } else { old(self).queued().len() as int };
                &&& final(self).queued() == old(self).queued().subrange(k, old(self).queued().len() as int)
                &&& r@ == live_entries(old(self).queued().take(k), old(self).live())
            }),
            forall|p: ChunkCoord| #[trigger] final(self).is_active(p) == old(self).is_active(p),
            forall|p: ChunkCoord| #[trigger] final(self).is_pending(p) == (old(self).is_pending(p) && !entry_coords(r@).contains(p)),
            final(self).in_flight_set() == old(self).in_flight_set(),
            final(self).diameter() == old(self).diameter(),
            final(self).size() == old(self).size(),
    {
        let ghost pre = *self;
        let ghost q = self.queue@;
        let k: usize = if cap < self.queue.len() { cap } else { self.queue.len() };
        let mut r: Vec<ApplyEntry<M>> = Vec::new();
        let mut i: usize = 0;
        while i < k
            invariant
                pre.wf(),
                0 <= i <= k,
                k <= q.len(),
                q == pre.queue@,
                self.queue@ == q.subrange(i as int, q.len() as int),
                r@ == live_entries(q.take(i as int), pre.live()),
                self.view_diameter == pre.view_diameter,
                self.chunk_size == pre.chunk_size,
                self.in_flight@ == pre.in_flight@,
                self.slots@.len() == pre.slots@.len(),
                forall|j: int| 0 <= j < self.slots@.len() ==> (#[trigger] self.slots@[j] is Some) == (pre.slots@[j] is Some),
                forall|j: int| 0 <= j < self.slots@.len() && self.slots@[j] is Some ==> (#[trigger] self.slots@[j])->Some_0.coord == pre.slots@[j]->Some_0.coord,
                forall|p: ChunkCoord| #[trigger] self.is_pending(p) == (pre.is_pending(p) && !entry_coords(r@).contains(p)),
            decreases k - i,
        {
            let ghost h = *self;
            let e = self.queue.remove(0);
            let ghost r0 = r@;
            assert(e == q[i as int]);
            assert(q.take(i as int + 1).drop_last() =~= q.take(i as int));
            assert(q.take(i as int + 1).last() == e);
            assert(e.slot == home_slot(e.coord, pre.view_diameter as int));
            proof {
                crate::grid::lemma_home_slot_range(e.coord, pre.view_diameter as int);
            }
            let live = match self.slots[e.slot] {
                Some(ch) => ch.coord == e.coord,
                None => false,
            };
            assert(live == pre.is_active(e.coord));
            if live {
                let j = e.slot;
                let c = e.coord;
                let ghost s0 = *self;
                self.slots.set(j, Some(Chunk { coord: c, pending: false }));
                r.push(e);
                proof {
                    assert(entry_coords(r@) =~= entry_coords(r0).push(c));
                    assert(entry_coords(r@).drop_last() =~= entry_coords(r0));
                    assert forall|p: ChunkCoord| #[trigger] self.is_pending(p) == (pre.is_pending(p) && !entry_coords(r@).contains(p)) by {
                        lemma_push_contains(entry_coords(r0), entry_coords(r@), p);
                        assert(h.is_pending(p) == (pre.is_pending(p) && !entry_coords(r0).contains(p)));
                        assert(s0.slots@ == h.slots@);
                        if p != c && home_slot(p, pre.view_diameter as int) == j as int {
                            assert(!pre.is_active(p));
                        }
                    }
                }
            }
            proof {
                assert(self.queue@ =~= q.subrange(i as int + 1, q.len() as int));
                if !live {
                    assert forall|p: ChunkCoord| #[trigger] self.is_pending(p) == (pre.is_pending(p) && !entry_coords(r@).contains(p)) by {
                        assert(h.is_pending(p) == (pre.is_pending(p) && !entry_coords(r0).contains(p)));
                    }
                }
            }
            i = i + 1;
        }
        proof {
            assert forall|j: int| 0 <= j < self.slots@.len() && (#[trigger] self.slots@[j]) is Some implies home_slot(self.slots@[j]->Some_0.coord, self.view_diameter as int) == j by {
                assert(pre.slots@[j] is Some);
            }
            assert forall|m: int| 0 <= m < self.queue@.len() implies (#[trigger] self.queue@[m]).slot == home_slot(self.queue@[m].coord, self.view_diameter as int) by {
                assert(self.queue@[m] == q[m + i]);
            }
            assert forall|p: ChunkCoord| #[trigger] self.is_active(p) == pre.is_active(p) by {}
        }
        r
    }

    /// Whether the chunk at `c` is active.
    pub fn active(&self, c: ChunkCoord) -> (r: bool)
        requires
            self.wf(),
        ensures
            r == self.is_active(c),
    {
        let j = home_slot_of(c, self.view_diameter);
        match self.slots[j] {
            Some(ch) => ch.coord == c,
            None => false,
        }
    }

    /// Whether the chunk at `c` is active and still waits for its mesh.
    pub fn pending(&self, c: ChunkCoord) -> (r: bool)
        requires
            self.wf(),
        ensures
            r == self.is_pending(c),
    {
        let j = home_slot_of(c, self.view_diameter);
        match self.slots[j] {
            Some(ch) => ch.coord == c && ch.pending,
            None => false,
        }
    }

    /// Whether a job for `c` is in flight.
    pub fn in_flight(&self, c: ChunkCoord) -> (r: bool)
        ensures
            r == self.in_flight_set().contains(c),
    {
        contains_coord(&self.in_flight, c)
    }

    /// Number of jobs in flight.
    pub fn in_flight_count(&self) -> (r: usize)
        requires
            self.wf(),
        ensures
            r == self.in_flight_set().len(),
    {
        proof {
            self.in_flight@.unique_seq_to_set();
        }
        self.in_flight.len()
    }

    /// Number of meshes waiting for upload.
    pub fn queue_len(&self) -> (r: usize)
        ensures
            r == self.queued().len(),
    {
        self.queue.len()
    }

    /// The active chunks, in slot order, each once.
    pub fn active_chunks(&self) -> (r: Vec<ChunkCoord>)
        requires
            self.wf(),
        ensures
            r@.no_duplicates(),
            forall|p: ChunkCoord| #[trigger] r@.contains(p) == self.is_active(p),
    {
        let d = self.view_diameter;
        let mut r: Vec<ChunkCoord> = Vec::new();
        let mut j: usize = 0;
        while j < self.slots.len()
            invariant
                self.wf(),
                d == self.view_diameter,
                0 <= j <= self.slots@.len(),
                r@.no_duplicates(),
                forall|p: ChunkCoord| #[trigger] r@.contains(p) == (self.is_active(p) && home_slot(p, d as int) < j),
            decreases self.slots@.len() - j,
        {
            let ghost r0 = r@;
            match self.slots[j] {
                Some(ch) => {
                    r.push(ch.coord);
                    proof {
                        assert(r@.drop_last() =~= r0);
                        assert(home_slot(ch.coord, d as int) == j);
                        assert forall|a: int, b: int| 0 <= a < b < r@.len() implies r@[a] != r@[b] by {
                            if b == r@.len() - 1 {
                                assert(r0.contains(r@[a]));
                            }
                        }
                    }
                },
                None => {},
            }
            proof {
                assert forall|p: ChunkCoord| #[trigger] r@.contains(p) == (self.is_active(p) && home_slot(p, d as int) < j + 1) by {
                    assert(r0.contains(p) == (self.is_active(p) && home_slot(p, d as int) < j));
                    lemma_push_contains(r0, r@, p);
                }
            }
            j = j + 1;
        }
        proof {
            assert forall|p: ChunkCoord| #[trigger] r@.contains(p) == self.is_active(p) by {
                assert(r@.contains(p) == (self.is_active(p) && home_slot(p, d as int) < j));
            }
        }
        r
    }
}

} // verus!
