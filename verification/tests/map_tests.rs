use raycaster_horror::map::{
    build_block_grid, maze_cell, orig_index, zone_of, zone_of_block, BlockMap, Zone, BLOCK_SIZE,
    ENEMY_SPAWN_CELL, GRID_SIZE, PLAYER_SPAWN_CELL,
};

const EXPECTED_GRID: [&str; 21] = [
    "#####################",
    "#...................#",
    "###.#####.###.###.#.#",
    "#.#.#...#...#...#...#",
    "#.#.#.#.#.#.#.#.#.###",
    "#.#...#...#.#...#...#",
    "#.#######.#.#.#.#####",
    "#.......#.#...#.....#",
    "#.###.###.#.###.###.#",
    "#...#...#.......#...#",
    "#######.#######.#.#.#",
    "#.......#.....#.#.#.#",
    "#.#####.#.###.#.#.#.#",
    "#...#.......#.#.#...#",
    "#.#.###.#####.#.###.#",
    "#.....#...#...#.....#",
    "#.###.###.#.#.#####.#",
    "#...#.#.....#.#.....#",
    "###.#.#########.#.###",
    "#...#...............#",
    "#####################",
];

#[test]
fn block_grid_matches_the_drawn_maze() {
    let grid = build_block_grid();
    assert_eq!(grid.len(), BLOCK_SIZE * BLOCK_SIZE);
    for r in 0..BLOCK_SIZE {
        let row: Vec<char> = EXPECTED_GRID[r].chars().collect();
        for c in 0..BLOCK_SIZE {
            assert_eq!(grid[r * BLOCK_SIZE + c], row[c] == '#', "block ({r}, {c})");
        }
    }
}

#[test]
fn solid_idx_agrees_with_block_grid() {
    let grid = build_block_grid();
    for r in 0..BLOCK_SIZE {
        for c in 0..BLOCK_SIZE {
            assert_eq!(BlockMap::is_solid_idx(r as isize, c as isize), grid[r * BLOCK_SIZE + c]);
        }
    }
}

#[test]
fn outside_the_grid_is_solid() {
    assert!(BlockMap::is_solid_idx(-1, 5));
    assert!(BlockMap::is_solid_idx(5, -1));
    assert!(BlockMap::is_solid_idx(21, 5));
    assert!(BlockMap::is_solid_idx(5, 21));
    assert!(BlockMap::is_solid_idx(isize::MIN, isize::MAX));
    assert!(!BlockMap::block_in_bounds(-1, 0));
    assert!(!BlockMap::block_in_bounds(0, 21));
    assert!(BlockMap::block_in_bounds(0, 0));
    assert!(BlockMap::block_in_bounds(20, 20));
}

#[test]
fn border_blocks_are_solid() {
    for i in 0..BLOCK_SIZE as isize {
        assert!(BlockMap::is_solid_idx(0, i));
        assert!(BlockMap::is_solid_idx(20, i));
        assert!(BlockMap::is_solid_idx(i, 0));
        assert!(BlockMap::is_solid_idx(i, 20));
    }
}

#[test]
fn maze_walls_agree_between_neighbours() {
    for i in 0..GRID_SIZE {
        for j in 0..GRID_SIZE {
            let w = maze_cell(i, j);
            if i + 1 < GRID_SIZE {
                assert_eq!(w.s, maze_cell(i + 1, j).n);
            }
            if j + 1 < GRID_SIZE {
                assert_eq!(w.e, maze_cell(i, j + 1).w);
            }
        }
    }
}

#[test]
fn maze_cells_as_drawn() {
    let w = maze_cell(0, 0);
    assert!(w.n && w.s && !w.e && w.w);
    let w = maze_cell(9, 9);
    assert!(w.n && w.s && w.e && !w.w);
    let w = maze_cell(5, 3);
    assert!(!w.n && !w.s && w.e && !w.w);
}

#[test]
fn spawn_cells_are_open() {
    let (pr, pc) = PLAYER_SPAWN_CELL;
    let (er, ec) = ENEMY_SPAWN_CELL;
    assert_eq!((pr, pc), (0, 0));
    assert_eq!((er, ec), (9, 9));
    assert!(!BlockMap::is_solid_idx((2 * pr + 1) as isize, (2 * pc + 1) as isize));
    assert!(!BlockMap::is_solid_idx((2 * er + 1) as isize, (2 * ec + 1) as isize));
}

#[test]
fn zones() {
    assert_eq!(zone_of(5, 5), Zone::Drip);
    assert_eq!(zone_of(9, 9), Zone::Drip);
    assert_eq!(zone_of(4, 9), Zone::Normal);
    assert_eq!(zone_of(9, 4), Zone::Normal);
    assert_eq!(zone_of(0, 0), Zone::Normal);
    assert_eq!(zone_of_block(11, 11), Zone::Drip);
    assert_eq!(zone_of_block(10, 11), Zone::Normal);
    assert_eq!(zone_of_block(20, 20), Zone::Drip);
    assert_eq!(zone_of_block(0, 0), Zone::Normal);
}

#[test]
fn orig_index_rounds_and_clamps() {
    assert_eq!(orig_index(0), 0);
    assert_eq!(orig_index(1), 0);
    assert_eq!(orig_index(2), 0);
    assert_eq!(orig_index(3), 1);
    assert_eq!(orig_index(19), 9);
    assert_eq!(orig_index(20), 9);
    assert_eq!(orig_index(21), 9);
    assert_eq!(orig_index(usize::MAX), 9);
}

#[test]
fn cell_interiors_lie_in_their_cell_zone() {
    for i in 0..GRID_SIZE {
        assert_eq!(orig_index(2 * i + 1), i);
        for j in 0..GRID_SIZE {
            assert_eq!(zone_of_block(2 * i + 1, 2 * j + 1), zone_of(i, j));
        }
    }
}

#[test]
fn maze_has_more_open_walls_than_a_tree() {
    let mut open_walls = 0;
    for i in 0..GRID_SIZE {
        for j in 0..GRID_SIZE {
            if j + 1 < GRID_SIZE && !maze_cell(i, j).e {
                open_walls += 1;
            }
            if i + 1 < GRID_SIZE && !maze_cell(i, j).s {
                open_walls += 1;
            }
        }
    }
    assert_eq!(open_walls, 110);
    assert!(open_walls > GRID_SIZE * GRID_SIZE - 1);
}
