use raycaster_horror::entities::enemy::{
    is_junction, neighbors, DistanceField, Pursuit, PATHFIND_RECALC_FRAMES, UNREACHABLE,
};
use raycaster_horror::map::{BlockMap, BLOCK_SIZE};
use std::collections::VecDeque;

fn open(r: usize, c: usize) -> bool {
    !BlockMap::is_solid_idx(r as isize, c as isize)
}

/// Plain breadth-first search, written independently, to compare against.
fn reference_bfs(tr: usize, tc: usize) -> Vec<u32> {
    let mut f = vec![UNREACHABLE; BLOCK_SIZE * BLOCK_SIZE];
    if !open(tr, tc) {
        return f;
    }
    f[tr * BLOCK_SIZE + tc] = 0;
    let mut q = VecDeque::new();
    q.push_back((tr, tc));
    while let Some((r, c)) = q.pop_front() {
        let d = f[r * BLOCK_SIZE + c];
        let cand = [(r as isize - 1, c as isize), (r as isize + 1, c as isize), (r as isize, c as isize - 1), (r as isize, c as isize + 1)];
        for (nr, nc) in cand {
            if BlockMap::is_solid_idx(nr, nc) {
                continue;
            }
            let (nr, nc) = (nr as usize, nc as usize);
            if f[nr * BLOCK_SIZE + nc] == UNREACHABLE {
                f[nr * BLOCK_SIZE + nc] = d + 1;
                q.push_back((nr, nc));
            }
        }
    }
    f
}

#[test]
fn neighbors_drop_out_of_grid() {
    assert_eq!(neighbors(0, 0), vec![(1, 0), (0, 1)]);
    assert_eq!(neighbors(5, 7), vec![(4, 7), (6, 7), (5, 6), (5, 8)]);
    assert_eq!(neighbors(20, 20), vec![(19, 20), (20, 19)]);
    assert_eq!(neighbors(21, 3), vec![(20, 3)]);
    assert_eq!(neighbors(30, 30), Vec::<(usize, usize)>::new());
}

#[test]
fn junctions() {
    // (1, 3): open west, east and south
    assert!(is_junction(1, 3));
    // (1, 1): a corner with two exits is not a junction
    assert!(!is_junction(1, 1));
    // a corridor block
    assert!(!is_junction(1, 2));
    let mut count = 0;
    for r in 0..BLOCK_SIZE {
        for c in 0..BLOCK_SIZE {
            if open(r, c) && is_junction(r, c) {
                count += 1;
            }
        }
    }
    assert_eq!(count, 30);
}

#[test]
fn distance_field_matches_reference_bfs() {
    for &(tr, tc) in &[(1usize, 1usize), (19, 19), (9, 15), (11, 3)] {
        let f = DistanceField::from_target(tr, tc);
        let reference = reference_bfs(tr, tc);
        for r in 0..BLOCK_SIZE {
            for c in 0..BLOCK_SIZE {
                assert_eq!(f.get(r, c), reference[r * BLOCK_SIZE + c], "target ({tr}, {tc}) block ({r}, {c})");
            }
        }
    }
}

#[test]
fn every_open_block_is_reachable_from_spawn() {
    let f = DistanceField::from_target(1, 1);
    let mut open_count = 0;
    for r in 0..BLOCK_SIZE {
        for c in 0..BLOCK_SIZE {
            if open(r, c) {
                open_count += 1;
                assert_ne!(f.get(r, c), UNREACHABLE, "block ({r}, {c})");
            } else {
                assert_eq!(f.get(r, c), UNREACHABLE);
            }
        }
    }
    assert_eq!(open_count, 210);
    assert_eq!(f.get(1, 1), 0);
    assert_eq!(f.get(19, 19), 40);
}

#[test]
fn solid_target_reaches_nothing() {
    let f = DistanceField::from_target(0, 0);
    for r in 0..BLOCK_SIZE {
        for c in 0..BLOCK_SIZE {
            assert_eq!(f.get(r, c), UNREACHABLE);
        }
    }
}

#[test]
fn unreachable_everywhere_field() {
    let f = DistanceField::unreachable_everywhere();
    assert_eq!(f.get(1, 1), UNREACHABLE);
    assert_eq!(f.best_neighbor(1, 1), None);
}

#[test]
fn best_neighbor_walks_down_to_the_target() {
    let f = DistanceField::from_target(1, 1);
    assert_eq!(f.best_neighbor(19, 19), Some((19, 18)));
    let (mut r, mut c) = (19usize, 19usize);
    let mut steps = 0;
    while f.get(r, c) > 0 {
        let d = f.get(r, c);
        let (nr, nc) = f.best_neighbor(r, c).unwrap();
        assert_eq!(f.get(nr, nc) + 1, d);
        r = nr;
        c = nc;
        steps += 1;
    }
    assert_eq!((r, c), (1, 1));
    assert_eq!(steps, 40);
}

#[test]
fn best_neighbor_prefers_first_on_ties() {
    let f = DistanceField::from_target(1, 3);
    // block (1, 3) has open west (1, 2), east (1, 4) and south (2, 3), all at 1;
    // from (1, 2) the closest neighbour is (1, 3)
    assert_eq!(f.best_neighbor(1, 2), Some((1, 3)));
    // at the target, the neighbours are all farther; north is solid, so the
    // first reachable one in north, south, west, east order is south
    assert_eq!(f.best_neighbor(1, 3), Some((2, 3)));
}

#[test]
fn pursuit_recomputes_on_first_tick_and_then_periodically() {
    let mut p = Pursuit::new();
    assert_eq!(p.next_step(19, 19), None);
    // first tick recomputes at once (the counter starts at the default interval)
    assert!(p.tick(1, 1, 6));
    assert_eq!(p.next_step(19, 19), Some((19, 18)));
    for _ in 0..5 {
        assert!(!p.tick(1, 1, 6));
    }
    assert!(p.tick(1, 1, 6));
    // the default interval qualifies as well
    let mut q = Pursuit::new();
    assert!(q.tick(1, 1, PATHFIND_RECALC_FRAMES));
}

#[test]
fn pursuit_clamps_the_player_block() {
    let mut p = Pursuit::new();
    // a block index past the grid is clamped to 20, which is solid here
    assert!(p.tick(100, 100, 1));
    assert_eq!(p.next_step(19, 19), None);
    assert!(p.tick(19, 100, 1));
    // (19, 20) is solid as well
    assert_eq!(p.next_step(19, 18), None);
}

#[test]
fn pursuit_pauses_only_on_arrival_at_a_junction() {
    let mut p = Pursuit::new();
    assert!(!p.arrive(1, 2));
    assert!(p.arrive(1, 3));
    assert!(!p.arrive(1, 3));
    assert!(!p.arrive(1, 4));
    assert!(p.arrive(1, 3));
}

#[test]
fn next_step_exists_on_every_open_block_but_the_players() {
    for (pr, pc) in [(1usize, 1usize), (19, 19), (9, 10), (1, 3)] {
        let mut p = Pursuit::new();
        assert!(p.tick(pr, pc, PATHFIND_RECALC_FRAMES));
        let f = DistanceField::from_target(pr, pc);
        for r in 0..BLOCK_SIZE {
            for c in 0..BLOCK_SIZE {
                if !open(r, c) || (r, c) == (pr, pc) {
                    continue;
                }
                let (nr, nc) = p.next_step(r, c).unwrap();
                assert_eq!(f.get(nr, nc) + 1, f.get(r, c), "block ({r}, {c})");
            }
        }
    }
}
