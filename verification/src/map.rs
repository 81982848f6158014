//! The 10x10 maze and the 21x21 grid of solid blocks that the renderer,
//! the collision checks and the pathfinding work on.
//!
//! The maze is written as walls on the four edges of each cell (the form in
//! which it was drawn and checked). For rendering it is turned into a grid of
//! twice the resolution plus one (`BLOCK_SIZE`): every cell interior becomes
//! an open block, every wall segment a solid block, and every post between
//! segments is solid. Block `(2i + 1, 2j + 1)` is the interior of cell
//! `(i, j)`.
use vstd::prelude::*;

verus! {

pub const GRID_SIZE: usize = 10;

/// Size of the block grid (`2 * GRID_SIZE + 1`): one row/column of blocks
/// per cell plus one between every two cells and on both borders.
pub const BLOCK_SIZE: usize = 21;

/// Number of blocks in the block grid (`BLOCK_SIZE * BLOCK_SIZE`).
pub const BLOCK_COUNT: usize = 441;

/// Walls on the four sides of a maze cell.
#[derive(Clone, Copy, Debug, PartialEq, Eq, Structural)]
pub struct Walls {
    pub n: bool,
    pub s: bool,
    pub e: bool,
    pub w: bool,
}

/// Themed zone of the apartment: the whole flat uses the same wallpaper with
/// scattered variations, except the `Drip` corner (rows 5-9, columns 5-9 of
/// the maze, where the enemy spawns), which uses a single texture.
#[derive(Clone, Copy, Debug, PartialEq, Eq, Structural)]
pub enum Zone {
    Normal,
    Drip,
}

/// Player spawn cell (row, col) in maze coordinates: top left corner.
pub const PLAYER_SPAWN_CELL: (usize, usize) = (0, 0);

/// Enemy spawn cell (row, col) in maze coordinates: bottom right corner.
pub const ENEMY_SPAWN_CELL: (usize, usize) = (9, 9);

/// The maze, row by row, as four bit masks (north, south, east, west): bit
/// `j` of a mask is set when cell `j` of that row has the wall.
pub open spec fn maze_row_masks(row: int) -> (u16, u16, u16, u16) {
    if row == 0 {
        (0x3ff, 0x0ad, 0x200, 0x001)
    } else if row == 1 {
        (0x0ad, 0x200, 0x2ab, 0x157)
    } else if row == 2 {
        (0x200, 0x30e, 0x2b5, 0x16b)
    } else if row == 3 {
        (0x30e, 0x14a, 0x258, 0x0b1)
    } else if row == 4 {
        (0x14a, 0x077, 0x28a, 0x115)
    } else if row == 5 {
        (0x077, 0x026, 0x3c8, 0x391)
    } else if row == 6 {
        (0x026, 0x134, 0x2e2, 0x1c5)
    } else if row == 7 {
        (0x134, 0x18a, 0x254, 0x0a9)
    } else if row == 8 {
        (0x18a, 0x279, 0x266, 0x0cd)
    } else {
        (0x279, 0x3ff, 0x202, 0x005)
    }
}

/// Weight of bit `bit` (for `0 <= bit`) in a 16-bit mask: `2` to the power
/// `bit`, and `65536` past the mask's width.
pub open spec fn bit_weight(bit: int) -> int {
    if bit <= 0 {
        1
    } else if bit == 1 {
        2
    } else if bit == 2 {
        4
    } else if bit == 3 {
        8
    } else if bit == 4 {
        16
    } else if bit == 5 {
        32
    } else if bit == 6 {
        64
    } else if bit == 7 {
        128
    } else if bit == 8 {
        256
    } else if bit == 9 {
        512
    } else if bit == 10 {
        1024
    } else if bit == 11 {
        2048
    } else if bit == 12 {
        4096
    } else if bit == 13 {
        8192
    } else if bit == 14 {
        16384
    } else if bit == 15 {
        32768
    } else {
        65536
    }
}

/// Whether bit `bit` of `mask` is set.
#[verifier::opaque]
pub open spec fn mask_bit(mask: u16, bit: int) -> bool {
    (mask as int / bit_weight(bit)) % 2 == 1
}

fn column_weight(col: usize) -> (w: u16)
    requires
        col < GRID_SIZE,
    ensures
        w == bit_weight(col as int),
{
    match col {
        0 => 1,
        1 => 2,
        2 => 4,
        3 => 8,
        4 => 16,
        5 => 32,
        6 => 64,
        7 => 128,
        8 => 256,
        _ => 512,
    }
}

/// The walls of maze cell (row, col).
pub open spec fn spec_maze_cell(row: int, col: int) -> Walls {
    let m = maze_row_masks(row);
    Walls { n: mask_bit(m.0, col), s: mask_bit(m.1, col), e: mask_bit(m.2, col), w: mask_bit(m.3, col) }
}

fn row_masks(row: usize) -> (m: (u16, u16, u16, u16))
    requires
        row < GRID_SIZE,
    ensures
        m == maze_row_masks(row as int),
{
    if row == 0 {
        (0x3ff, 0x0ad, 0x200, 0x001)
    } else if row == 1 {
        (0x0ad, 0x200, 0x2ab, 0x157)
    } else if row == 2 {
        (0x200, 0x30e, 0x2b5, 0x16b)
    } else if row == 3 {
        (0x30e, 0x14a, 0x258, 0x0b1)
    } else if row == 4 {
        (0x14a, 0x077, 0x28a, 0x115)
    } else if row == 5 {
        (0x077, 0x026, 0x3c8, 0x391)
    } else if row == 6 {
        (0x026, 0x134, 0x2e2, 0x1c5)
    } else if row == 7 {
        (0x134, 0x18a, 0x254, 0x0a9)
    } else if row == 8 {
        (0x18a, 0x279, 0x266, 0x0cd)
    } else {
        (0x279, 0x3ff, 0x202, 0x005)
    }
}

/// The walls of maze cell (row, col), rows and columns 0-indexed from the
/// top left.
pub fn maze_cell(row: usize, col: usize) -> (w: Walls)
    requires
        row < GRID_SIZE,
        col < GRID_SIZE,
    ensures
        w == spec_maze_cell(row as int, col as int),
{
    let m = row_masks(row);
    let b = column_weight(col);
    proof {
        reveal(mask_bit);
    }
    Walls { n: (m.0 / b) % 2 == 1, s: (m.1 / b) % 2 == 1, e: (m.2 / b) % 2 == 1, w: (m.3 / b) % 2 == 1 }
}

/// Zone of a maze cell: `Drip` in the bottom right quarter, `Normal` elsewhere.
pub open spec fn spec_zone_of(row: int, col: int) -> Zone {
    if row >= 5 && col >= 5 {
        Zone::Drip
    } else {
        Zone::Normal
    }
}

/// Zone of the maze cell (row, col).
pub fn zone_of(row: usize, col: usize) -> (z: Zone)
    ensures
        z == spec_zone_of(row as int, col as int),
{
    if row >= 5 && col >= 5 {
        Zone::Drip
    } else {
        Zone::Normal
    }
}

/// Nearest maze cell index of a block index: exact for odd indices (cell
/// interiors), rounded towards the lower cell for even ones (walls and posts),
/// and clamped to the grid.
pub open spec fn spec_orig_index(block_idx: int) -> int {
    let i = if block_idx >= 1 { (block_idx - 1) / 2 } else { 0 };
    if i < GRID_SIZE - 1 {
        i
    } else {
        GRID_SIZE - 1
    }
}

/// Maze cell index nearest to a block index (see `spec_orig_index`).
pub fn orig_index(block_idx: usize) -> (i: usize)
    ensures
        i == spec_orig_index(block_idx as int),
        i < GRID_SIZE,
{
    let i = block_idx.saturating_sub(1) / 2;
    if i < GRID_SIZE - 1 {
        i
    } else {
        GRID_SIZE - 1
    }
}

/// Zone of a block of the block grid.
pub open spec fn spec_zone_of_block(block_row: int, block_col: int) -> Zone {
    spec_zone_of(spec_orig_index(block_row), spec_orig_index(block_col))
}

/// Zone of the block (block_row, block_col), by the maze cell it belongs to.
pub fn zone_of_block(block_row: usize, block_col: usize) -> (z: Zone)
    ensures
        z == spec_zone_of_block(block_row as int, block_col as int),
{
    zone_of(orig_index(block_row), orig_index(block_col))
}

/// Whether (row, col) lies inside the block grid.
pub open spec fn spec_block_in_bounds(row: int, col: int) -> bool {
    0 <= row < BLOCK_SIZE && 0 <= col < BLOCK_SIZE
}

/// Whether the in-bounds block (r, c) is solid: posts (even row, even column)
/// always are, cell interiors (odd, odd) never are, and a segment between two
/// posts is solid exactly when the maze has the wall there.
pub open spec fn spec_block_wall(r: int, c: int) -> bool {
    if r % 2 == 0 && c % 2 == 0 {
        true
    } else if r % 2 == 1 && c % 2 == 1 {
        false
    } else if r % 2 == 1 {
        // vertical segment west of cell (r / 2, c / 2), or the east border
        let i = r / 2;
        let k = c / 2;
        if k == 0 {
            spec_maze_cell(i, 0).w
        } else if k == GRID_SIZE {
            spec_maze_cell(i, GRID_SIZE - 1).e
        } else {
            spec_maze_cell(i, k - 1).e
        }
    } else {
        // horizontal segment north of cell (r / 2, c / 2), or the south border
        let j = c / 2;
        let k = r / 2;
        if k == 0 {
            spec_maze_cell(0, j).n
        } else if k == GRID_SIZE {
            spec_maze_cell(GRID_SIZE - 1, j).s
        } else {
            spec_maze_cell(k - 1, j).s
        }
    }
}

/// Whether block (row, col) counts as solid: everything outside the grid does.
pub open spec fn spec_is_solid(row: int, col: int) -> bool {
    !spec_block_in_bounds(row, col) || spec_block_wall(row, col)
}

/// Position of block (row, col) in a row-major grid of `BLOCK_SIZE` columns.
pub open spec fn block_index(row: int, col: int) -> int {
    row * BLOCK_SIZE + col
}

fn block_is_wall(r: usize, c: usize) -> (b: bool)
    requires
        r < BLOCK_SIZE,
        c < BLOCK_SIZE,
    ensures
        b == spec_block_wall(r as int, c as int),
{
    if r % 2 == 0 && c % 2 == 0 {
        true
    } else if r % 2 == 1 && c % 2 == 1 {
        false
    } else if r % 2 == 1 {
        let i = r / 2;
        let k = c / 2;
        if k == 0 {
            maze_cell(i, 0).w
        } else if k == GRID_SIZE {
            maze_cell(i, GRID_SIZE - 1).e
        } else {
            maze_cell(i, k - 1).e
        }
    } else {
        let j = c / 2;
        let k = r / 2;
        if k == 0 {
            maze_cell(0, j).n
        } else if k == GRID_SIZE {
            maze_cell(GRID_SIZE - 1, j).s
        } else {
            maze_cell(k - 1, j).s
        }
    }
}

/// The maze as a row-major grid of `BLOCK_COUNT` blocks, `true` for solid.
pub open spec fn is_block_grid(g: Seq<bool>) -> bool {
    &&& g.len() == BLOCK_COUNT
    &&& forall|r: int, c: int|
        spec_block_in_bounds(r, c) ==> #[trigger] g[block_index(r, c)] == spec_block_wall(r, c)
}

/// Builds the block grid from the maze, row-major (`grid[r * BLOCK_SIZE + c]`
/// is block (r, c)): posts first, then the vertical segments, then the
/// horizontal ones; cell interiors stay open.
pub fn build_block_grid() -> (blocks: Vec<bool>)
    ensures
        is_block_grid(blocks@),
{
    let mut blocks: Vec<bool> = Vec::new();
    let mut n: usize = 0;
    while n < BLOCK_COUNT
        invariant
            n <= BLOCK_COUNT,
            blocks@.len() == n,
            forall|k: int| 0 <= k < n ==> blocks@[k] == false,
        decreases BLOCK_COUNT - n,
    {
        blocks.push(false);
        n = n + 1;
    }

    // Posts at every grid intersection.
    let mut i: usize = 0;
    while i <= GRID_SIZE
        invariant
            i <= GRID_SIZE + 1,
            blocks@.len() == BLOCK_COUNT,
            forall|r: int, c: int|
                spec_block_in_bounds(r, c) ==> #[trigger] blocks@[block_index(r, c)] == (r % 2 == 0
                    && c % 2 == 0 && r / 2 < i),
        decreases GRID_SIZE + 1 - i,
    {
        let mut j: usize = 0;
        while j <= GRID_SIZE
            invariant
                i <= GRID_SIZE,
                j <= GRID_SIZE + 1,
                blocks@.len() == BLOCK_COUNT,
                forall|r: int, c: int|
                    spec_block_in_bounds(r, c) ==> #[trigger] blocks@[block_index(r, c)] == (r % 2
                        == 0 && c % 2 == 0 && (r / 2 < i || (r / 2 == i && c / 2 < j))),
            decreases GRID_SIZE + 1 - j,
        {
            blocks.set((2 * i) * BLOCK_SIZE + 2 * j, true);
            assert forall|r: int, c: int| spec_block_in_bounds(r, c) implies #[trigger] blocks@[block_index(r, c)] == (r % 2
                        == 0 && c % 2 == 0 && (r / 2 < i || (r / 2 == i && c / 2 < j + 1))) by {
                if block_index(r, c) == (2 * i) * BLOCK_SIZE + 2 * j {
                    assert(r == 2 * i && c == 2 * j);
                }
            }
            j = j + 1;
        }
        i = i + 1;
    }

    // Vertical segments: the wall between horizontally adjacent cells, and the
    // west and east borders.
    let mut i: usize = 0;
    while i < GRID_SIZE
        invariant
            i <= GRID_SIZE,
            blocks@.len() == BLOCK_COUNT,
            forall|r: int, c: int|
                spec_block_in_bounds(r, c) ==> #[trigger] blocks@[block_index(r, c)] == (if r % 2
                    == 1 && c % 2 == 0 && r / 2 < i {
                    spec_block_wall(r, c)
                } else {
                    r % 2 == 0 && c % 2 == 0
                }),
        decreases GRID_SIZE - i,
    {
        blocks.set((2 * i + 1) * BLOCK_SIZE, maze_cell(i, 0).w);
        let mut j: usize = 0;
        while j < GRID_SIZE
            invariant
                i < GRID_SIZE,
                j <= GRID_SIZE,
                blocks@.len() == BLOCK_COUNT,
                forall|r: int, c: int|
                    spec_block_in_bounds(r, c) ==> #[trigger] blocks@[block_index(r, c)] == (if r
                        % 2 == 1 && c % 2 == 0 && (r / 2 < i || (r / 2 == i && c / 2 <= j && c / 2 < GRID_SIZE)) {
                        spec_block_wall(r, c)
                    } else {
                        r % 2 == 0 && c % 2 == 0
                    }),
            decreases GRID_SIZE - j,
        {
            if j + 1 < GRID_SIZE {
                blocks.set((2 * i + 1) * BLOCK_SIZE + 2 * j + 2, maze_cell(i, j).e);
            }
            assert forall|r: int, c: int| spec_block_in_bounds(r, c) implies #[trigger] blocks@[block_index(r, c)] == (if r
                        % 2 == 1 && c % 2 == 0 && (r / 2 < i || (r / 2 == i && c / 2 <= j + 1 && c / 2 < GRID_SIZE)) {
                        spec_block_wall(r, c)
                    } else {
                        r % 2 == 0 && c % 2 == 0
                    }) by {
                if j + 1 < GRID_SIZE && block_index(r, c) == (2 * i + 1) * BLOCK_SIZE + 2 * j + 2 {
                    assert(r == 2 * i + 1 && c == 2 * j + 2);
                }
            }
            j = j + 1;
        }
        blocks.set((2 * i + 1) * BLOCK_SIZE + 2 * GRID_SIZE, maze_cell(i, GRID_SIZE - 1).e);
        assert forall|r: int, c: int| spec_block_in_bounds(r, c) implies #[trigger] blocks@[block_index(r, c)] == (if r
                    % 2 == 1 && c % 2 == 0 && r / 2 < i + 1 {
                    spec_block_wall(r, c)
                } else {
                    r % 2 == 0 && c % 2 == 0
                }) by {
            if block_index(r, c) == (2 * i + 1) * BLOCK_SIZE + 2 * GRID_SIZE {
                assert(r == 2 * i + 1 && c == 2 * GRID_SIZE);
            }
        }
        i = i + 1;
    }

    // Horizontal segments: the wall between vertically adjacent cells, and the
    // north and south borders. Cell interiors stay open.
    let mut j: usize = 0;
    while j < GRID_SIZE
        invariant
            j <= GRID_SIZE,
            blocks@.len() == BLOCK_COUNT,
            forall|r: int, c: int|
                spec_block_in_bounds(r, c) ==> #[trigger] blocks@[block_index(r, c)] == (if r % 2
                    == 0 && c % 2 == 1 && c / 2 >= j {
                    false
                } else {
                    spec_block_wall(r, c)
                }),
        decreases GRID_SIZE - j,
    {
        blocks.set(2 * j + 1, maze_cell(0, j).n);
        let mut i: usize = 0;
        while i < GRID_SIZE
            invariant
                j < GRID_SIZE,
                i <= GRID_SIZE,
                blocks@.len() == BLOCK_COUNT,
                forall|r: int, c: int|
                    spec_block_in_bounds(r, c) ==> #[trigger] blocks@[block_index(r, c)] == (if r
                        % 2 == 0 && c % 2 == 1 && (c / 2 > j || (c / 2 == j && (r / 2 > i || r / 2 == GRID_SIZE))) {
                        false
                    } else {
                        spec_block_wall(r, c)
                    }),
            decreases GRID_SIZE - i,
        {
            if i + 1 < GRID_SIZE {
                blocks.set((2 * i + 2) * BLOCK_SIZE + 2 * j + 1, maze_cell(i, j).s);
            }
            assert forall|r: int, c: int| spec_block_in_bounds(r, c) implies #[trigger] blocks@[block_index(r, c)] == (if r
                        % 2 == 0 && c % 2 == 1 && (c / 2 > j || (c / 2 == j && (r / 2 > i + 1 || r / 2 == GRID_SIZE))) {
                        false
                    } else {
                        spec_block_wall(r, c)
                    }) by {
                if i + 1 < GRID_SIZE && block_index(r, c) == (2 * i + 2) * BLOCK_SIZE + 2 * j + 1 {
                    assert(r == 2 * i + 2 && c == 2 * j + 1);
                }
            }
            i = i + 1;
        }
        blocks.set((2 * GRID_SIZE) * BLOCK_SIZE + 2 * j + 1, maze_cell(GRID_SIZE - 1, j).s);
        assert forall|r: int, c: int| spec_block_in_bounds(r, c) implies #[trigger] blocks@[block_index(r, c)] == (if r % 2
                    == 0 && c % 2 == 1 && c / 2 >= j + 1 {
                    false
                } else {
                    spec_block_wall(r, c)
                }) by {
            if block_index(r, c) == (2 * GRID_SIZE) * BLOCK_SIZE + 2 * j + 1 {
                assert(r == 2 * GRID_SIZE && c == 2 * j + 1);
            }
        }
        j = j + 1;
    }
    blocks
}

/// The maze is consistent: the south wall of a cell is the north wall of the
/// cell below it, and the east wall of a cell is the west wall of the cell to
/// its right.
pub proof fn lemma_maze_walls_agree(row: int, col: int)
    requires
        0 <= row < GRID_SIZE,
        0 <= col < GRID_SIZE,
    ensures
        row + 1 < GRID_SIZE ==> spec_maze_cell(row, col).s == spec_maze_cell(row + 1, col).n,
        col + 1 < GRID_SIZE ==> spec_maze_cell(row, col).e == spec_maze_cell(row, col + 1).w,
{
    reveal(mask_bit);
    if row == 0 {
        if col == 0 {} else if col == 1 {} else if col == 2 {} else if col == 3 {} else if col == 4 {} else if col == 5 {} else if col == 6 {} else if col == 7 {} else if col == 8 {} else if col == 9 {}
    } else if row == 1 {
        if col == 0 {} else if col == 1 {} else if col == 2 {} else if col == 3 {} else if col == 4 {} else if col == 5 {} else if col == 6 {} else if col == 7 {} else if col == 8 {} else if col == 9 {}
    } else if row == 2 {
        if col == 0 {} else if col == 1 {} else if col == 2 {} else if col == 3 {} else if col == 4 {} else if col == 5 {} else if col == 6 {} else if col == 7 {} else if col == 8 {} else if col == 9 {}
    } else if row == 3 {
        if col == 0 {} else if col == 1 {} else if col == 2 {} else if col == 3 {} else if col == 4 {} else if col == 5 {} else if col == 6 {} else if col == 7 {} else if col == 8 {} else if col == 9 {}
    } else if row == 4 {
        if col == 0 {} else if col == 1 {} else if col == 2 {} else if col == 3 {} else if col == 4 {} else if col == 5 {} else if col == 6 {} else if col == 7 {} else if col == 8 {} else if col == 9 {}
    } else if row == 5 {
        if col == 0 {} else if col == 1 {} else if col == 2 {} else if col == 3 {} else if col == 4 {} else if col == 5 {} else if col == 6 {} else if col == 7 {} else if col == 8 {} else if col == 9 {}
    } else if row == 6 {
        if col == 0 {} else if col == 1 {} else if col == 2 {} else if col == 3 {} else if col == 4 {} else if col == 5 {} else if col == 6 {} else if col == 7 {} else if col == 8 {} else if col == 9 {}
    } else if row == 7 {
        if col == 0 {} else if col == 1 {} else if col == 2 {} else if col == 3 {} else if col == 4 {} else if col == 5 {} else if col == 6 {} else if col == 7 {} else if col == 8 {} else if col == 9 {}
    } else if row == 8 {
        if col == 0 {} else if col == 1 {} else if col == 2 {} else if col == 3 {} else if col == 4 {} else if col == 5 {} else if col == 6 {} else if col == 7 {} else if col == 8 {} else if col == 9 {}
    } else if row == 9 {
        if col == 0 {} else if col == 1 {} else if col == 2 {} else if col == 3 {} else if col == 4 {} else if col == 5 {} else if col == 6 {} else if col == 7 {} else if col == 8 {} else if col == 9 {}
    }
}

/// The outer walls of the maze are all there: every cell of the top row has
/// its north wall, of the bottom row its south wall, of the left column its
/// west wall and of the right column its east wall.
pub proof fn lemma_outer_walls(k: int)
    requires
        0 <= k < GRID_SIZE,
    ensures
        spec_maze_cell(0, k).n,
        spec_maze_cell(GRID_SIZE - 1, k).s,
        spec_maze_cell(k, 0).w,
        spec_maze_cell(k, GRID_SIZE - 1).e,
{
    reveal(mask_bit);
    if k == 0 {} else if k == 1 {} else if k == 2 {} else if k == 3 {} else if k == 4 {} else if k == 5 {} else if k == 6 {} else if k == 7 {} else if k == 8 {} else if k == 9 {}
}

/// The maze is closed: every block on the border of the block grid is solid,
/// so nothing that stays on open blocks can leave the grid.
pub proof fn lemma_border_is_solid(r: int, c: int)
    requires
        spec_block_in_bounds(r, c),
        r == 0 || r == BLOCK_SIZE - 1 || c == 0 || c == BLOCK_SIZE - 1,
    ensures
        spec_block_wall(r, c),
{
    if r % 2 == 0 && c % 2 == 1 {
        lemma_outer_walls(c / 2);
    } else if r % 2 == 1 && c % 2 == 0 {
        lemma_outer_walls(r / 2);
    }
}

/// 1 when a wall is absent, else 0.
pub open spec fn open_indicator(wall: bool) -> int {
    if wall {
        0
    } else {
        1
    }
}

/// Number of absent walls between horizontally adjacent cells of maze row `i`.
pub open spec fn open_east_walls(i: int) -> int {
    open_indicator(spec_maze_cell(i, 0).e)
        + open_indicator(spec_maze_cell(i, 1).e)
        + open_indicator(spec_maze_cell(i, 2).e)
        + open_indicator(spec_maze_cell(i, 3).e)
        + open_indicator(spec_maze_cell(i, 4).e)
        + open_indicator(spec_maze_cell(i, 5).e)
        + open_indicator(spec_maze_cell(i, 6).e)
        + open_indicator(spec_maze_cell(i, 7).e)
        + open_indicator(spec_maze_cell(i, 8).e)
}

/// Number of absent walls between maze row `i` and row `i + 1`.
pub open spec fn open_south_walls(i: int) -> int {
    open_indicator(spec_maze_cell(i, 0).s)
        + open_indicator(spec_maze_cell(i, 1).s)
        + open_indicator(spec_maze_cell(i, 2).s)
        + open_indicator(spec_maze_cell(i, 3).s)
        + open_indicator(spec_maze_cell(i, 4).s)
        + open_indicator(spec_maze_cell(i, 5).s)
        + open_indicator(spec_maze_cell(i, 6).s)
        + open_indicator(spec_maze_cell(i, 7).s)
        + open_indicator(spec_maze_cell(i, 8).s)
        + open_indicator(spec_maze_cell(i, 9).s)
}

/// Number of absent walls between adjacent cells of the maze.
pub open spec fn open_internal_walls() -> int {
    open_east_walls(0)
        + open_east_walls(1)
        + open_east_walls(2)
        + open_east_walls(3)
        + open_east_walls(4)
        + open_east_walls(5)
        + open_east_walls(6)
        + open_east_walls(7)
        + open_east_walls(8)
        + open_east_walls(9)
        + open_south_walls(0)
        + open_south_walls(1)
        + open_south_walls(2)
        + open_south_walls(3)
        + open_south_walls(4)
        + open_south_walls(5)
        + open_south_walls(6)
        + open_south_walls(7)
        + open_south_walls(8)
}

/// The maze has loops: 110 of its internal walls are open, more than the 99
/// that a maze of 100 cells with a single route between any two cells has,
/// so the player can always get round the enemy somewhere.
pub proof fn lemma_maze_has_loops()
    ensures
        open_internal_walls() == 110,
        open_internal_walls() > GRID_SIZE * GRID_SIZE - 1,
{
    reveal(mask_bit);
    assert(open_east_walls(0) == 9);
    assert(open_east_walls(1) == 4);
    assert(open_east_walls(2) == 4);
    assert(open_east_walls(3) == 6);
    assert(open_east_walls(4) == 6);
    assert(open_east_walls(5) == 5);
    assert(open_east_walls(6) == 5);
    assert(open_east_walls(7) == 6);
    assert(open_east_walls(8) == 5);
    assert(open_east_walls(9) == 8);
    assert(open_south_walls(0) == 5);
    assert(open_south_walls(1) == 9);
    assert(open_south_walls(2) == 5);
    assert(open_south_walls(3) == 6);
    assert(open_south_walls(4) == 4);
    assert(open_south_walls(5) == 7);
    assert(open_south_walls(6) == 6);
    assert(open_south_walls(7) == 6);
    assert(open_south_walls(8) == 4);
}

/// The interior of every maze cell is an open block, in particular the two
/// spawn cells.
pub proof fn lemma_cell_interiors_open(row: int, col: int)
    requires
        0 <= row < GRID_SIZE,
        0 <= col < GRID_SIZE,
    ensures
        !spec_is_solid(2 * row + 1, 2 * col + 1),
{
}

/// The grid built by `build_block_grid` (which the minimap draws) is exactly
/// the solidity that `BlockMap::is_solid_idx` reports (which collisions, rays
/// and pathfinding use).
pub proof fn lemma_grid_matches_solidity(g: Seq<bool>, r: int, c: int)
    requires
        is_block_grid(g),
        spec_block_in_bounds(r, c),
    ensures
        g[block_index(r, c)] == spec_is_solid(r, c),
{
}

/// `orig_index` is exact on cell interiors: the interior block of maze cell
/// (i, j) belongs to that cell, so it lies in that cell's zone.
pub proof fn lemma_interior_zone(i: int, j: int)
    requires
        0 <= i < GRID_SIZE,
        0 <= j < GRID_SIZE,
    ensures
        spec_orig_index(2 * i + 1) == i,
        spec_zone_of_block(2 * i + 1, 2 * j + 1) == spec_zone_of(i, j),
{
}

/// Queries on the block grid.
pub struct BlockMap;

impl BlockMap {
    /// Whether block (row, col) lies inside the block grid.
    pub fn block_in_bounds(row: isize, col: isize) -> (b: bool)
        ensures
            b == spec_block_in_bounds(row as int, col as int),
    {
        row >= 0 && col >= 0 && (row as usize) < BLOCK_SIZE && (col as usize) < BLOCK_SIZE
    }

    /// Whether block (row, col) is solid. Blocks outside the grid count as
    /// solid, so a ray or a move never leaves the grid.
    pub fn is_solid_idx(row: isize, col: isize) -> (b: bool)
        ensures
            b == spec_is_solid(row as int, col as int),
    {
        if !Self::block_in_bounds(row, col) {
            return true;
        }
        block_is_wall(row as usize, col as usize)
    }
}

} // verus!
