use sand::sim::{offset_from_draw, Grain, Region, Sim};

fn cells(s: &Sim) -> Vec<(usize, usize)> {
    s.particles().iter().map(|g| (g.x, g.y)).collect()
}

#[test]
fn spawn_then_fall_one_cell() {
    let mut s = Sim::new(10, 10, 0, 1, 2, 170).unwrap();
    assert_eq!(s.spawn(5, 0), 1);
    assert_eq!(cells(&s), vec![(5, 0)]);
    assert!(s.is_occupied(5, 0));
    assert_eq!(s.region(), Region { min_x: 5, max_x: 5, min_y: 0, max_y: 0 });
    s.settle();
    assert_eq!(cells(&s), vec![(5, 1)]);
    assert!(!s.is_occupied(5, 0));
    assert!(s.is_occupied(5, 1));
    assert_eq!(s.region(), Region { min_x: 3, max_x: 7, min_y: 0, max_y: 3 });
}

#[test]
fn full_column_stays_put() {
    let mut s = Sim::new(1, 3, 0, 1, 0, 1).unwrap();
    assert!(s.spawn_at(0, 0));
    assert!(s.spawn_at(0, 1));
    assert!(s.spawn_at(0, 2));
    let before = cells(&s);
    let region = s.region();
    s.settle();
    assert_eq!(cells(&s), before);
    assert_eq!(s.region(), region);
    s.settle();
    assert_eq!(cells(&s), before);
}

#[test]
fn drain_removes_resting_grain() {
    let mut s = Sim::new(10, 10, 0, 1, 2, 1).unwrap();
    assert!(s.spawn_at(5, 9));
    assert!(s.spawn_at(0, 9));
    s.drain();
    assert_eq!(cells(&s), vec![(0, 9)]);
    assert!(!s.is_occupied(5, 9));
    assert!(s.is_occupied(0, 9));
}

#[test]
fn drain_keeps_grains_off_its_span() {
    let mut s = Sim::new(10, 10, 0, 1, 2, 1).unwrap();
    for (x, y) in [(2, 9), (3, 9), (7, 9), (8, 9), (5, 8)] {
        assert!(s.spawn_at(x, y));
    }
    s.drain();
    assert_eq!(cells(&s), vec![(2, 9), (8, 9), (5, 8)]);
    for x in 3..=7 {
        assert!(!s.is_occupied(x, 9));
    }
}

#[test]
fn drain_grows_region_over_removed_grains() {
    let mut s = Sim::new(10, 10, 0, 1, 2, 1).unwrap();
    assert!(s.spawn_at(5, 9));
    s.settle();
    assert_eq!(s.region(), Region { min_x: 5, max_x: 5, min_y: 9, max_y: 9 });
    s.drain();
    assert!(s.particles().is_empty());
    assert_eq!(s.region(), Region { min_x: 5, max_x: 5, min_y: 9, max_y: 9 });
}

#[test]
fn spawn_near_edge_stays_in_bounds() {
    let mut s = Sim::new(10, 10, 6, 25, 2, 170).unwrap();
    let placed = s.spawn(0, 0);
    assert!(placed <= 25);
    assert!(placed >= 1);
    assert_eq!(s.particles().len(), placed);
    for g in s.particles() {
        assert!(g.x < 10 && g.y < 10);
        let (dx, dy) = (g.x as i64, g.y as i64);
        assert!(dx * dx + dy * dy <= 36);
    }
    let mut seen = cells(&s);
    seen.sort();
    seen.dedup();
    assert_eq!(seen.len(), placed);
}

#[test]
fn spawn_far_outside_places_nothing() {
    let mut s = Sim::new(10, 10, 3, 25, 2, 170).unwrap();
    assert_eq!(s.spawn(-100, -100), 0);
    assert!(s.particles().is_empty());
}

#[test]
fn same_seed_same_frames() {
    let mut a = Sim::new(40, 30, 4, 10, 5, 170).unwrap();
    let mut b = Sim::new(40, 30, 4, 10, 5, 170).unwrap();
    for frame in 0..60 {
        let point = if frame % 3 == 0 { Some((20, 2)) } else { None };
        let drain = frame % 7 == 6;
        a.frame(point, drain);
        b.frame(point, drain);
        assert_eq!(a.particles(), b.particles());
        assert_eq!(a.region(), b.region());
    }
    assert!(!a.particles().is_empty());
}

#[test]
fn frames_keep_grid_and_grains_consistent() {
    let mut s = Sim::new(20, 15, 3, 8, 4, 42).unwrap();
    for frame in 0..80 {
        let point = if frame < 40 { Some((10, 3)) } else { None };
        s.frame(point, frame % 5 == 4);
        let mut seen = cells(&s);
        for &(x, y) in &seen {
            assert!(x < 20 && y < 15);
        }
        for y in 0..15 {
            for x in 0..20 {
                assert_eq!(s.is_occupied(x, y), seen.contains(&(x, y)));
            }
        }
        let n = seen.len();
        seen.sort();
        seen.dedup();
        assert_eq!(seen.len(), n);
        if frame % 5 == 4 {
            assert!(s.particles().iter().all(|g| !(g.y == 14 && g.x >= 6 && g.x <= 14)));
        }
    }
}

#[test]
fn blocked_grain_slides_down_left() {
    let mut s = Sim::new(10, 10, 0, 1, 2, 1).unwrap();
    assert!(s.spawn_at(5, 9));
    assert!(s.spawn_at(5, 8));
    s.settle();
    assert_eq!(cells(&s), vec![(5, 9), (4, 9)]);
}

#[test]
fn blocked_grain_slides_down_right() {
    let mut s = Sim::new(10, 10, 0, 1, 2, 1).unwrap();
    assert!(s.spawn_at(4, 9));
    assert!(s.spawn_at(5, 9));
    assert!(s.spawn_at(5, 8));
    s.settle();
    assert_eq!(cells(&s), vec![(4, 9), (5, 9), (6, 9)]);
}

#[test]
fn newest_grain_moves_first() {
    let mut s = Sim::new(3, 3, 0, 1, 0, 1).unwrap();
    assert!(s.spawn_at(1, 1));
    assert!(s.spawn_at(1, 0));
    s.settle();
    // the newer grain at (1, 0) is blocked below and slides to (0, 1);
    // the older one then falls to (1, 2)
    assert_eq!(cells(&s), vec![(1, 2), (0, 1)]);
}

#[test]
fn settled_heap_is_fixed() {
    let mut s = Sim::new(3, 2, 0, 1, 0, 1).unwrap();
    for (x, y) in [(0, 1), (1, 1), (2, 1), (1, 0)] {
        assert!(s.spawn_at(x, y));
    }
    let before = cells(&s);
    let region = s.region();
    for _ in 0..3 {
        s.settle();
        assert_eq!(cells(&s), before);
        assert_eq!(s.region(), region);
    }
}

#[test]
fn spawn_at_rejects_taken_and_outside_cells() {
    let mut s = Sim::new(4, 4, 0, 1, 1, 1).unwrap();
    assert!(s.spawn_at(1, 1));
    assert!(!s.spawn_at(1, 1));
    assert!(!s.spawn_at(-1, 0));
    assert!(!s.spawn_at(4, 0));
    assert!(!s.spawn_at(0, 4));
    assert_eq!(s.particles(), &vec![Grain { x: 1, y: 1 }]);
}

#[test]
fn invalid_configurations_are_refused() {
    assert!(Sim::new(0, 10, 1, 1, 0, 1).is_none());
    assert!(Sim::new(10, 0, 1, 1, 0, 1).is_none());
    assert!(Sim::new(10, 10, 1, 1, 11, 1).is_none());
    assert!(Sim::new(10, 10, 1, 1, 10, 900_000_001).is_none());
    let s = Sim::new(10, 8, 1, 1, 10, 900_000_000).unwrap();
    assert_eq!((s.width(), s.height()), (10, 8));
}

#[test]
fn draws_map_onto_offsets() {
    assert_eq!(offset_from_draw(0, 6), -6);
    assert_eq!(offset_from_draw(0xffffff, 6), 6);
    assert_eq!(offset_from_draw(0x800000, 6), 0);
    assert_eq!(offset_from_draw(0x123456, 0), 0);
}

#[test]
fn trial_rejects_offsets_outside_disc() {
    let mut s = Sim::new(10, 10, 1, 1, 2, 1).unwrap();
    assert_eq!(s.trial(5, 5, 0, 0), None);
    assert!(s.particles().is_empty());
    assert_eq!(s.trial(5, 5, 0, 0x800000), Some(true));
    assert_eq!(cells(&s), vec![(4, 5)]);
    assert_eq!(s.trial(5, 5, 0, 0x800000), Some(false));
    assert_eq!(s.trial(0, 5, 0, 0x800000), Some(false));
}

#[test]
fn frame_spawns_then_settles() {
    let mut s = Sim::new(10, 10, 0, 1, 2, 170).unwrap();
    s.frame(Some((5, 0)), false);
    assert_eq!(cells(&s), vec![(5, 1)]);
    assert_eq!(s.region(), Region { min_x: 3, max_x: 7, min_y: 0, max_y: 3 });
}

#[test]
fn zero_radius_attempts_fill_one_cell() {
    let mut s = Sim::new(10, 10, 0, 25, 2, 170).unwrap();
    assert_eq!(s.spawn(3, 4), 1);
    assert_eq!(cells(&s), vec![(3, 4)]);
    assert_eq!(s.spawn(3, 4), 0);
    assert_eq!(cells(&s), vec![(3, 4)]);
}

#[test]
fn spawn_grows_region_over_new_grains() {
    let mut s = Sim::new(30, 30, 5, 20, 2, 7).unwrap();
    let placed = s.spawn(15, 15);
    assert!(placed >= 1);
    let g = s.particles();
    let r = s.region();
    assert_eq!(r.min_x, g.iter().map(|p| p.x).min().unwrap());
    assert_eq!(r.max_x, g.iter().map(|p| p.x).max().unwrap());
    assert_eq!(r.min_y, g.iter().map(|p| p.y).min().unwrap());
    assert_eq!(r.max_y, g.iter().map(|p| p.y).max().unwrap());
}

#[test]
fn grain_blocked_by_unvisited_grains_stays() {
    let mut s = Sim::new(3, 3, 0, 1, 0, 1).unwrap();
    for (x, y) in [(0, 2), (1, 2), (2, 2), (1, 1)] {
        assert!(s.spawn_at(x, y));
    }
    s.settle();
    assert_eq!(cells(&s), vec![(0, 2), (1, 2), (2, 2), (1, 1)]);
}
