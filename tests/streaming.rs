use terrain_stream::grid::{chunk_axis, chunk_of_viewpoint, home_slot_of, ChunkCoord};
use terrain_stream::stream::{ConfigError, StreamingState};

fn c(x: i32, y: i32) -> ChunkCoord {
    ChunkCoord { x, y }
}

fn sorted(mut v: Vec<ChunkCoord>) -> Vec<(i32, i32)> {
    let mut r: Vec<(i32, i32)> = v.drain(..).map(|p| (p.x, p.y)).collect();
    r.sort();
    r
}

fn square(xs: std::ops::RangeInclusive<i32>, ys: std::ops::RangeInclusive<i32>) -> Vec<(i32, i32)> {
    let mut r = Vec::new();
    for x in xs {
        for y in ys.clone() {
            r.push((x, y));
        }
    }
    r.sort();
    r
}

#[test]
fn window_of_three_at_origin_then_one_chunk_east() {
    let mut s: StreamingState<u32> = StreamingState::new(3, 200).unwrap();
    let first = s.tick(0, 0);
    assert_eq!(sorted(s.active_chunks()), square(-1..=1, -1..=1));
    assert!(first.released.is_empty());
    assert_eq!(first.placed.len(), 9);
    assert_eq!(first.submitted.len(), 9);

    let second = s.tick(200, 0);
    assert_eq!(sorted(s.active_chunks()), square(0..=2, -1..=1));
    assert_eq!(sorted(second.released), vec![(-1, -1), (-1, 0), (-1, 1)]);
    let placed: Vec<ChunkCoord> = second.placed.iter().map(|p| p.coord).collect();
    assert_eq!(sorted(placed), vec![(2, -1), (2, 0), (2, 1)]);
    assert_eq!(sorted(second.submitted), vec![(2, -1), (2, 0), (2, 1)]);
}

#[test]
fn settled_set_is_the_whole_window_everywhere() {
    let views = [(0, 0), (1234, -987), (-50_000, 77_777), (99, 101), (-100, -100)];
    for d in [1u32, 2, 3, 4, 7] {
        let mut s: StreamingState<u8> = StreamingState::new(d, 64).unwrap();
        for (wx, wz) in views {
            s.tick(wx, wz);
            let active = sorted(s.active_chunks());
            assert_eq!(active.len(), (d * d) as usize);
            let center = chunk_of_viewpoint(wx, wz, 64);
            let lx = center.x - (d / 2) as i32;
            let ly = center.y - (d / 2) as i32;
            assert_eq!(active, square(lx..=lx + d as i32 - 1, ly..=ly + d as i32 - 1));
        }
    }
}

#[test]
fn one_chunk_step_swaps_one_edge() {
    let mut s: StreamingState<u8> = StreamingState::new(5, 100).unwrap();
    s.tick(1000, 1000);
    let east = s.tick(1100, 1000);
    assert_eq!(east.released.len(), 5);
    assert_eq!(east.placed.len(), 5);
    let south = s.tick(1100, 1100);
    assert_eq!(south.released.len(), 5);
    assert_eq!(south.placed.len(), 5);
    let same = s.tick(1110, 1090);
    assert!(same.released.is_empty());
    assert!(same.placed.is_empty());
}

#[test]
fn slot_freed_this_tick_is_reused_and_placed_at_home() {
    let mut s: StreamingState<u8> = StreamingState::new(3, 200).unwrap();
    s.tick(0, 0);
    let r = s.tick(200, 0);
    for p in &r.placed {
        assert_eq!(p.slot, home_slot_of(p.coord, 3));
        assert_eq!(p.world_x, p.coord.x as i64 * 200);
        assert_eq!(p.world_z, p.coord.y as i64 * 200);
    }
}

#[test]
fn repeated_submission_keeps_one_job() {
    let mut s: StreamingState<u8> = StreamingState::new(3, 10).unwrap();
    assert!(s.submit(c(4, 4)));
    assert!(!s.submit(c(4, 4)));
    assert!(!s.submit(c(4, 4)));
    assert_eq!(s.in_flight_count(), 1);
    s.tick(0, 0);
    let again = s.tick(0, 0);
    assert!(again.submitted.is_empty());
    assert_eq!(s.in_flight_count(), 10);
}

#[test]
fn no_mesh_clears_marker_and_next_tick_resubmits() {
    let mut s: StreamingState<u8> = StreamingState::new(3, 10).unwrap();
    s.tick(0, 0);
    assert!(s.in_flight(c(0, 0)));
    assert!(!s.complete(c(0, 0), None));
    assert!(!s.in_flight(c(0, 0)));
    assert!(s.pending(c(0, 0)));
    let next = s.tick(0, 0);
    assert_eq!(sorted(next.submitted), vec![(0, 0)]);
    assert!(s.in_flight(c(0, 0)));
}

#[test]
fn completed_mesh_is_queued_then_applied_once() {
    let mut s: StreamingState<&'static str> = StreamingState::new(3, 10).unwrap();
    s.tick(0, 0);
    assert!(s.complete(c(1, 0), Some("east")));
    assert!(s.complete(c(0, 1), Some("south")));
    assert_eq!(s.queue_len(), 2);
    let first = s.drain(1);
    assert_eq!(first.len(), 1);
    assert_eq!(first[0].mesh, "east");
    assert_eq!(first[0].coord, c(1, 0));
    assert_eq!(first[0].slot, home_slot_of(c(1, 0), 3));
    assert_eq!((first[0].world_x, first[0].world_z), (10, 0));
    assert!(!s.pending(c(1, 0)));
    assert!(s.pending(c(0, 1)));
    let rest = s.drain(10);
    assert_eq!(rest.len(), 1);
    assert_eq!(rest[0].mesh, "south");
    assert_eq!(s.queue_len(), 0);
    assert!(s.drain(10).is_empty());
    // A chunk that got its mesh is not resubmitted.
    let next = s.tick(0, 0);
    assert!(!next.submitted.contains(&c(1, 0)));
}

#[test]
fn stale_results_are_never_applied() {
    let mut s: StreamingState<u8> = StreamingState::new(3, 10).unwrap();
    s.tick(0, 0);
    // Finished after its chunk left the window: not queued.
    s.tick(100, 0);
    assert!(!s.complete(c(-1, 0), Some(1)));
    assert!(!s.in_flight(c(-1, 0)));
    // Queued, then its slot went to another chunk before the drain: dropped.
    assert!(s.complete(c(9, 0), Some(2)));
    s.tick(130, 0);
    assert!(!s.active(c(9, 0)));
    assert_eq!(s.queue_len(), 1);
    assert!(s.drain(5).is_empty());
    assert_eq!(s.queue_len(), 0);
}

#[test]
fn configuration_is_checked_at_startup() {
    assert_eq!(StreamingState::<u8>::new(0, 10).err(), Some(ConfigError::ViewDiameterOutOfRange));
    assert_eq!(StreamingState::<u8>::new(1025, 10).err(), Some(ConfigError::ViewDiameterOutOfRange));
    assert_eq!(StreamingState::<u8>::new(3, 0).err(), Some(ConfigError::ZeroChunkSize));
    assert!(StreamingState::<u8>::new(1024, 1).is_ok());
    let s: StreamingState<u8> = StreamingState::new(2, 5).unwrap();
    assert!(s.active_chunks().is_empty());
    assert_eq!(s.in_flight_count(), 0);
}

#[test]
fn viewpoint_rounds_half_away_from_zero() {
    assert_eq!(chunk_axis(0, 200), 0);
    assert_eq!(chunk_axis(99, 200), 0);
    assert_eq!(chunk_axis(100, 200), 1);
    assert_eq!(chunk_axis(299, 200), 1);
    assert_eq!(chunk_axis(300, 200), 2);
    assert_eq!(chunk_axis(-99, 200), 0);
    assert_eq!(chunk_axis(-100, 200), -1);
    assert_eq!(chunk_axis(-301, 200), -2);
    assert_eq!(chunk_of_viewpoint(450, -450, 300), c(2, -2));
}

#[test]
fn even_window_extends_one_more_toward_negative() {
    let mut s: StreamingState<u8> = StreamingState::new(2, 1).unwrap();
    s.tick(0, 0);
    assert_eq!(sorted(s.active_chunks()), square(-1..=0, -1..=0));
}
