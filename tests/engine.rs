use kosmos_tile::engine::{
    check_window_width, destination_generation, plan_tick, source_generation, window_width,
    workgroup_count, Generation, InFlightLimit, PreconditionError, TickEngine,
};
use kosmos_tile::tile::TransferError;
use kosmos_tile::{Terrian, Tile};

fn idx(w: usize, x: usize, y: usize, z: usize) -> usize {
    x * w * w + y * w + z
}

#[test]
fn window_width_checks() {
    assert_eq!(check_window_width(8), Ok(8));
    assert_eq!(check_window_width(1625), Ok(1625));
    assert_eq!(check_window_width(0), Err(PreconditionError { window_width: 0 }));
    assert_eq!(check_window_width(1626), Err(PreconditionError { window_width: 1626 }));
    assert_eq!(check_window_width(usize::MAX), Err(PreconditionError { window_width: usize::MAX }));
    assert!(TickEngine::new(0).is_err());
}

#[test]
fn window_width_from_chunks() {
    assert_eq!(window_width(24, 5), Some(264));
    assert_eq!(window_width(32, 3), Some(224));
    assert_eq!(window_width(0, usize::MAX), Some(0));
    assert_eq!(window_width(2, usize::MAX / 2), None);
}

#[test]
fn workgroups_cover_the_grid() {
    assert_eq!(workgroup_count(8), 2);
    assert_eq!(workgroup_count(9), 3);
    assert_eq!(workgroup_count(264), 66);
    assert_eq!(workgroup_count(1), 1);
    assert_eq!(workgroup_count(0), 0);
}

#[test]
fn plan_selects_generation_by_parity() {
    let p = plan_tick(8, 6);
    assert_eq!(p.frame_number, 6);
    assert_eq!(p.source, Generation::Zero);
    assert_eq!(p.destination, Generation::One);
    assert_eq!(p.workgroups, [2, 2, 2]);
    assert_eq!(p.constants.width, 8);
    assert_eq!(p.constants.depth, 8);
    let q = plan_tick(8, (1u64 << 32) + 3);
    assert_eq!(q.frame_number, 3);
    assert_eq!(q.source, Generation::One);
    assert_eq!(source_generation(9), Generation::One);
    assert_eq!(destination_generation(9), Generation::Zero);
}

#[test]
fn upload_rejects_wrong_length() {
    let mut e = TickEngine::new(2).unwrap();
    assert_eq!(e.window_len(), 8);
    let r = e.upload(&vec![Tile::default(); 7]);
    assert_eq!(r, Err(TransferError::LengthMismatch { expected: 8, found: 7 }));
    assert!(e.upload(&vec![Tile::default(); 9]).is_err());
    assert_eq!(e.upload(&vec![Tile::default(); 8]), Ok(()));
}

#[test]
fn upload_then_download_without_tick() {
    let mut e = TickEngine::new(3).unwrap();
    let mut s = vec![Tile::default(); 27];
    s[13].gravity = [1, 2, 3];
    s[4].terrian = Terrian::DeepWater;
    e.upload(&s).unwrap();
    assert_eq!(e.download(), s);
}

#[test]
fn round_trip_small_grid_is_identity() {
    let mut e = TickEngine::new(2).unwrap();
    let s: Vec<Tile> = (0..8)
        .map(|i| Tile { terrian: Terrian::SwallowWater, temperature: i, pressure: 2 * i, gravity: [i as i8, -(i as i8), 3], pad: [0, 0] })
        .collect();
    e.upload(&s).unwrap();
    e.tick();
    assert_eq!(e.download(), s);
}

#[test]
fn round_trip_zero_gravity_is_identity() {
    let mut e = TickEngine::new(5).unwrap();
    let s: Vec<Tile> = (0..125u32)
        .map(|i| Tile { terrian: Terrian::DeepWater, temperature: (i % 200) as u8, pressure: 1, gravity: [0, 0, 0], pad: [0, 0] })
        .collect();
    e.upload(&s).unwrap();
    e.tick();
    assert_eq!(e.download(), s);
}

#[test]
fn width_three_has_one_interior_cell() {
    let mut e = TickEngine::new(3).unwrap();
    let mut s = vec![Tile::default(); 27];
    s[idx(3, 0, 1, 1)].gravity = [2, 0, 0];
    e.upload(&s).unwrap();
    e.tick();
    let out = e.download();
    assert_eq!(out[idx(3, 1, 1, 1)].gravity, [1, 1, 1]);
    assert_ne!(out, s);
}

#[test]
fn scenario_width_eight_single_perturbation() {
    let mut e = TickEngine::new(8).unwrap();
    let mut s = vec![Tile::default(); 512];
    s[idx(8, 4, 4, 4)].gravity = [10, 0, 0];
    e.upload(&s).unwrap();
    let plan = e.tick();
    assert_eq!(plan.frame_number, 0);
    let out = e.download();
    assert_eq!(out.len(), 512);
    assert_eq!(out[idx(8, 4, 4, 4)].gravity[0], 0);
    assert_eq!(out[idx(8, 3, 4, 4)].gravity, [5, 5, 5]);
    assert_eq!(out[idx(8, 5, 4, 4)].gravity, [5, 5, 5]);
    assert_eq!(out[idx(8, 4, 3, 4)].gravity, [0, 0, 0]);
    assert_eq!(out[idx(8, 4, 4, 5)].gravity, [0, 0, 0]);
}

#[test]
fn ticks_alternate_generations() {
    let mut e = TickEngine::new(4).unwrap();
    for k in 0..10u64 {
        assert_eq!(e.frame_counter(), k);
        let plan = e.tick();
        assert_eq!(plan.frame_number as u64, k);
        assert_eq!(plan.source == Generation::Zero, k % 2 == 0);
        assert_ne!(plan.source, plan.destination);
        assert_eq!(plan.constants.frame_number as u64, k);
    }
    assert_eq!(e.frame_counter(), 10);
    assert_eq!(e.window_width(), 4);
}

#[test]
fn successive_ticks_read_previous_result() {
    let w = 5usize;
    let mut e = TickEngine::new(w).unwrap();
    let mut s = vec![Tile::default(); w * w * w];
    s[idx(w, 2, 2, 2)].gravity = [8, 8, 8];
    e.upload(&s).unwrap();
    e.tick();
    e.tick();
    let out = e.download();
    // Frame 0 spreads x gravity to (1,2,2) and (3,2,2) as [4,4,4]; frame 1
    // averages along y, where every neighbour of (2,2,2) is now zero.
    assert_eq!(out[idx(w, 2, 2, 2)].gravity, [0, 0, 0]);
    assert_eq!(out[idx(w, 1, 2, 2)].gravity, [0, 0, 0]);
    assert_eq!(out[idx(w, 1, 1, 2)].gravity, [2, 2, 2]);
    assert_eq!(out[idx(w, 3, 3, 2)].gravity, [2, 2, 2]);
}

#[test]
fn in_flight_limit_bounds_admissions() {
    let mut l = InFlightLimit::new(2);
    assert_eq!(l.in_flight(), 0);
    assert!(l.try_acquire());
    assert!(l.try_acquire());
    assert!(!l.try_acquire());
    assert_eq!(l.in_flight(), 2);
    l.release();
    assert_eq!(l.in_flight(), 1);
    assert!(l.try_acquire());
    let mut none = InFlightLimit::new(0);
    assert!(!none.try_acquire());
}
