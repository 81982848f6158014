//! The enemy's navigation over the block grid: a breadth-first distance
//! field from the player's block, recomputed every few frames, and a step
//! rule that walks down that field towards the player.
//!
//! The enemy also pauses when it arrives at a real junction (three or more
//! open ways): `Pursuit::arrive` reports that arrival.
use vstd::prelude::*;
use crate::map::{
    BlockMap, BLOCK_COUNT, BLOCK_SIZE, GRID_SIZE, block_index, lemma_border_is_solid, mask_bit,
    spec_block_in_bounds, spec_is_solid,
};

verus! {

/// Distance given to blocks that cannot be reached from the target.
pub const UNREACHABLE: u32 = 0xffff_ffff;

/// Default number of frames between two recomputations of the distance field.
pub const PATHFIND_RECALC_FRAMES: u32 = 18;

/// Visual state of the enemy: enraged once the player's life is at or below
/// half.
#[derive(Clone, Copy, PartialEq, Eq, Debug, Structural)]
pub enum EnemyState {
    Normal,
    Enraged,
}

// ---------------------------------------------------------------------------
// Neighbours
// ---------------------------------------------------------------------------

/// Whether a (row, col) pair of indices lies inside the block grid.
pub open spec fn in_grid(p: (usize, usize)) -> bool {
    p.0 < BLOCK_SIZE && p.1 < BLOCK_SIZE
}

/// `p` alone when it lies in the grid, nothing otherwise.
pub open spec fn keep_in_grid(p: (usize, usize)) -> Seq<(usize, usize)> {
    if in_grid(p) {
        seq![p]
    } else {
        seq![]
    }
}

/// The orthogonal neighbours of (row, col) that lie in the grid, in the order
/// north, south, west, east. Indices below zero wrap around and so drop out.
pub open spec fn spec_neighbors(row: usize, col: usize) -> Seq<(usize, usize)> {
    keep_in_grid((row.wrapping_sub(1), col)) + keep_in_grid(((row + 1) as usize, col))
        + keep_in_grid((row, col.wrapping_sub(1))) + keep_in_grid((row, (col + 1) as usize))
}

/// Orthogonal neighbours (north, south, west, east) of block (row, col) that
/// lie inside the grid.
pub fn neighbors(row: usize, col: usize) -> (nbs: Vec<(usize, usize)>)
    requires
        row < usize::MAX,
        col < usize::MAX,
    ensures
        nbs@ == spec_neighbors(row, col),
{
    let candidates = [
        (row.wrapping_sub(1), col),
        (row + 1, col),
        (row, col.wrapping_sub(1)),
        (row, col + 1),
    ];
    let mut nbs: Vec<(usize, usize)> = Vec::new();
    let mut i: usize = 0;
    while i < 4
        invariant
            0 <= i <= 4,
            candidates@ == seq![
                (row.wrapping_sub(1), col),
                ((row + 1) as usize, col),
                (row, col.wrapping_sub(1)),
                (row, (col + 1) as usize),
            ],
            nbs@ == (if i >= 1 { keep_in_grid(candidates@[0]) } else { seq![] }) + (if i >= 2 {
                keep_in_grid(candidates@[1])
            } else {
                seq![]
            }) + (if i >= 3 { keep_in_grid(candidates@[2]) } else { seq![] }) + (if i >= 4 {
                keep_in_grid(candidates@[3])
            } else {
                seq![]
            }),
        decreases 4 - i,
    {
        let (r, c) = candidates[i];
        if r < BLOCK_SIZE && c < BLOCK_SIZE {
            nbs.push((r, c));
        }
        i = i + 1;
    }
    assert(nbs@ =~= spec_neighbors(row, col));
    nbs
}

/// 1 when block (r, c) is open (in the grid and not solid), else 0.
pub open spec fn open_indicator(r: int, c: int) -> int {
    if spec_is_solid(r, c) {
        0
    } else {
        1
    }
}

/// Number of open blocks among the four orthogonal neighbours of (r, c).
pub open spec fn open_neighbor_count(r: int, c: int) -> int {
    open_indicator(r - 1, c) + open_indicator(r + 1, c) + open_indicator(r, c - 1)
        + open_indicator(r, c + 1)
}

/// Number of open blocks in a sequence of grid positions.
pub open spec fn count_open(s: Seq<(usize, usize)>) -> int
    decreases s.len(),
{
    if s.len() == 0 {
        0
    } else {
        count_open(s.drop_last()) + open_indicator(s.last().0 as int, s.last().1 as int)
    }
}

proof fn lemma_count_open_append(a: Seq<(usize, usize)>, b: Seq<(usize, usize)>)
    ensures
        count_open(a + b) == count_open(a) + count_open(b),
    decreases b.len(),
{
    if b.len() > 0 {
        assert((a + b).drop_last() =~= a + b.drop_last());
        lemma_count_open_append(a, b.drop_last());
    } else {
        assert(a + b =~= a);
    }
}

proof fn lemma_count_keep(p: (usize, usize), r: int, c: int)
    requires
        p.0 as int == r || !in_grid(p) && !spec_block_in_bounds(r, c),
        p.1 as int == c || !in_grid(p) && !spec_block_in_bounds(r, c),
        in_grid(p) <==> spec_block_in_bounds(r, c),
    ensures
        count_open(keep_in_grid(p)) == open_indicator(r, c),
{
    assert(count_open(Seq::<(usize, usize)>::empty()) == 0);
    if in_grid(p) {
        assert(keep_in_grid(p).drop_last() =~= Seq::<(usize, usize)>::empty());
    }
}

proof fn lemma_neighbors_open_count(row: usize, col: usize)
    requires
        row < usize::MAX,
        col < usize::MAX,
    ensures
        count_open(spec_neighbors(row, col)) == open_neighbor_count(row as int, col as int),
{
    let a = keep_in_grid((row.wrapping_sub(1), col));
    let b = keep_in_grid(((row + 1) as usize, col));
    let c = keep_in_grid((row, col.wrapping_sub(1)));
    let d = keep_in_grid((row, (col + 1) as usize));
    lemma_count_open_append(a, b);
    lemma_count_open_append(a + b, c);
    lemma_count_open_append(a + b + c, d);
    lemma_count_keep((row.wrapping_sub(1), col), row - 1, col as int);
    lemma_count_keep(((row + 1) as usize, col), row + 1, col as int);
    lemma_count_keep((row, col.wrapping_sub(1)), row as int, col - 1);
    lemma_count_keep((row, (col + 1) as usize), row as int, col + 1);
}

/// Whether (row, col) is a real junction: three or more of its orthogonal
/// neighbours are open. A plain corner (two exits) is not.
pub fn is_junction(row: usize, col: usize) -> (b: bool)
    requires
        row < usize::MAX,
        col < usize::MAX,
    ensures
        b == (open_neighbor_count(row as int, col as int) >= 3),
{
    let nbs = neighbors(row, col);
    let mut count: usize = 0;
    let mut i: usize = 0;
    while i < nbs.len()
        invariant
            i <= nbs@.len(),
            nbs@ == spec_neighbors(row, col),
            nbs@.len() <= 4,
            count == count_open(nbs@.subrange(0, i as int)),
            count <= i,
        decreases nbs.len() - i,
    {
        let (r, c) = nbs[i];
        assert(nbs@.subrange(0, i as int + 1).drop_last() =~= nbs@.subrange(0, i as int));
        if !BlockMap::is_solid_idx(r as isize, c as isize) {
            count = count + 1;
        }
        i = i + 1;
    }
    assert(nbs@.subrange(0, nbs@.len() as int) =~= nbs@);
    proof {
        lemma_neighbors_open_count(row, col);
    }
    count >= 3
}

// ---------------------------------------------------------------------------
// Distance fields
// ---------------------------------------------------------------------------

/// Value of block (r, c) in a row-major distance field.
pub open spec fn dist_at(d: Seq<u32>, r: int, c: int) -> u32 {
    d[block_index(r, c)]
}

/// The move from (r, c) to the neighbouring block (r2, c2) respects the
/// field: when (r, c) is reached and (r2, c2) is open, (r2, c2) is reached
/// too, at most one step further.
pub open spec fn edge_ok(d: Seq<u32>, r: int, c: int, r2: int, c2: int) -> bool {
    (!spec_is_solid(r2, c2) && dist_at(d, r, c) != UNREACHABLE) ==> (dist_at(d, r2, c2)
        != UNREACHABLE && dist_at(d, r2, c2) <= dist_at(d, r, c) + 1)
}

/// All four moves out of (r, c) respect the field.
pub open spec fn spreads(d: Seq<u32>, r: int, c: int) -> bool {
    &&& edge_ok(d, r, c, r - 1, c)
    &&& edge_ok(d, r, c, r + 1, c)
    &&& edge_ok(d, r, c, r, c - 1)
    &&& edge_ok(d, r, c, r, c + 1)
}

/// (r2, c2) is in the grid and exactly one step closer than (r, c).
pub open spec fn one_closer(d: Seq<u32>, r: int, c: int, r2: int, c2: int) -> bool {
    spec_block_in_bounds(r2, c2) && dist_at(d, r2, c2) + 1 == dist_at(d, r, c)
}

/// Some orthogonal neighbour of (r, c) is exactly one step closer.
pub open spec fn has_parent(d: Seq<u32>, r: int, c: int) -> bool {
    ||| one_closer(d, r, c, r - 1, c)
    ||| one_closer(d, r, c, r + 1, c)
    ||| one_closer(d, r, c, r, c - 1)
    ||| one_closer(d, r, c, r, c + 1)
}

/// The conditions a distance field from (tr, tc) meets at block (r, c).
pub open spec fn cell_ok(d: Seq<u32>, tr: int, tc: int, r: int, c: int) -> bool {
    &&& spec_is_solid(r, c) ==> dist_at(d, r, c) == UNREACHABLE
    &&& spreads(d, r, c)
    &&& (dist_at(d, r, c) != UNREACHABLE && (r != tr || c != tc)) ==> has_parent(d, r, c)
}

/// `d` holds, for every block, the number of orthogonal steps over open
/// blocks from the open block (tr, tc), and `UNREACHABLE` for blocks that no
/// such walk reaches (solid ones included). The target is at 0, every reached
/// block other than the target has a neighbour one step closer, and no move
/// between open blocks gains more than one step; together these pin down the
/// shortest walk length (see `lemma_distance_is_shortest_walk`).
pub open spec fn is_distance_field(d: Seq<u32>, tr: int, tc: int) -> bool {
    &&& d.len() == BLOCK_COUNT
    &&& spec_block_in_bounds(tr, tc)
    &&& !spec_is_solid(tr, tc)
    &&& dist_at(d, tr, tc) == 0
    &&& forall|r: int, c: int| spec_block_in_bounds(r, c) ==> #[trigger] cell_ok(d, tr, tc, r, c)
}

/// Every block of `d` is `UNREACHABLE`.
pub open spec fn is_unreachable_field(d: Seq<u32>) -> bool {
    &&& d.len() == BLOCK_COUNT
    &&& forall|k: int| 0 <= k < BLOCK_COUNT ==> #[trigger] d[k] == UNREACHABLE
}

/// Number of reached (non-`UNREACHABLE`) entries of `s`.
pub open spec fn count_reached(s: Seq<u32>) -> nat
    decreases s.len(),
{
    if s.len() == 0 {
        0
    } else {
        count_reached(s.drop_last()) + if s.last() != UNREACHABLE {
            1nat
        } else {
            0nat
        }
    }
}

proof fn lemma_count_reached_le_len(s: Seq<u32>)
    ensures
        count_reached(s) <= s.len(),
    decreases s.len(),
{
    if s.len() > 0 {
        lemma_count_reached_le_len(s.drop_last());
    }
}

proof fn lemma_count_reached_none(s: Seq<u32>)
    requires
        forall|k: int| 0 <= k < s.len() ==> s[k] == UNREACHABLE,
    ensures
        count_reached(s) == 0,
    decreases s.len(),
{
    if s.len() > 0 {
        lemma_count_reached_none(s.drop_last());
    }
}

proof fn lemma_count_reached_update(s: Seq<u32>, i: int, v: u32)
    requires
        0 <= i < s.len(),
        s[i] == UNREACHABLE,
        v != UNREACHABLE,
    ensures
        count_reached(s.update(i, v)) == count_reached(s) + 1,
    decreases s.len(),
{
    if i == s.len() - 1 {
        assert(s.update(i, v).drop_last() =~= s.drop_last());
    } else {
        assert(s.update(i, v).drop_last() =~= s.drop_last().update(i, v));
        lemma_count_reached_update(s.drop_last(), i, v);
    }
}

proof fn lemma_neighbors_adjacent(r: usize, c: usize)
    requires
        r < BLOCK_SIZE,
        c < BLOCK_SIZE,
    ensures
        forall|t: int|
            0 <= t < spec_neighbors(r, c).len() ==> {
                let p = #[trigger] spec_neighbors(r, c)[t];
                &&& in_grid(p)
                &&& {
                    ||| p.0 as int == r - 1 && p.1 == c
                    ||| p.0 as int == r + 1 && p.1 == c
                    ||| p.0 == r && p.1 as int == c - 1
                    ||| p.0 == r && p.1 as int == c + 1
                }
            },
        r >= 1 ==> spec_neighbors(r, c).contains(((r - 1) as usize, c)),
        r + 1 < BLOCK_SIZE ==> spec_neighbors(r, c).contains(((r + 1) as usize, c)),
        c >= 1 ==> spec_neighbors(r, c).contains((r, (c - 1) as usize)),
        c + 1 < BLOCK_SIZE ==> spec_neighbors(r, c).contains((r, (c + 1) as usize)),
{
    let a = keep_in_grid((r.wrapping_sub(1), c));
    let b = keep_in_grid(((r + 1) as usize, c));
    let x = keep_in_grid((r, c.wrapping_sub(1)));
    let y = keep_in_grid((r, (c + 1) as usize));
    let s = spec_neighbors(r, c);
    assert(s == a + b + x + y);
    if r >= 1 {
        assert(s[0] == ((r - 1) as usize, c));
    }
    if r + 1 < BLOCK_SIZE {
        assert(s[a.len() as int] == ((r + 1) as usize, c));
    }
    if c >= 1 {
        assert(s[(a.len() + b.len()) as int] == (r, (c - 1) as usize));
    }
    if c + 1 < BLOCK_SIZE {
        assert(s[(a.len() + b.len() + x.len()) as int] == (r, (c + 1) as usize));
    }
}

proof fn lemma_edge_grows(old: Seq<u32>, new: Seq<u32>, r: int, c: int, r2: int, c2: int)
    requires
        old.len() == BLOCK_COUNT,
        new.len() == BLOCK_COUNT,
        forall|k: int| 0 <= k < BLOCK_COUNT && old[k] != UNREACHABLE ==> #[trigger] new[k] == old[k],
        spec_block_in_bounds(r, c),
        dist_at(old, r, c) != UNREACHABLE,
        edge_ok(old, r, c, r2, c2),
    ensures
        edge_ok(new, r, c, r2, c2),
{
    assert(new[block_index(r, c)] == old[block_index(r, c)]);
    if !spec_is_solid(r2, c2) {
        assert(new[block_index(r2, c2)] == old[block_index(r2, c2)]);
    }
}

proof fn lemma_cell_grows(old: Seq<u32>, new: Seq<u32>, r: int, c: int)
    requires
        old.len() == BLOCK_COUNT,
        new.len() == BLOCK_COUNT,
        forall|k: int| 0 <= k < BLOCK_COUNT && old[k] != UNREACHABLE ==> #[trigger] new[k] == old[k],
        spec_block_in_bounds(r, c),
        dist_at(old, r, c) != UNREACHABLE,
    ensures
        dist_at(new, r, c) == dist_at(old, r, c),
        spreads(old, r, c) ==> spreads(new, r, c),
        has_parent(old, r, c) ==> has_parent(new, r, c),
{
    assert(new[block_index(r, c)] == old[block_index(r, c)]);
    if spreads(old, r, c) {
        lemma_edge_grows(old, new, r, c, r - 1, c);
        lemma_edge_grows(old, new, r, c, r + 1, c);
        lemma_edge_grows(old, new, r, c, r, c - 1);
        lemma_edge_grows(old, new, r, c, r, c + 1);
    }
    if one_closer(old, r, c, r - 1, c) {
        assert(new[block_index(r - 1, c)] == old[block_index(r - 1, c)]);
    }
    if one_closer(old, r, c, r + 1, c) {
        assert(new[block_index(r + 1, c)] == old[block_index(r + 1, c)]);
    }
    if one_closer(old, r, c, r, c - 1) {
        assert(new[block_index(r, c - 1)] == old[block_index(r, c - 1)]);
    }
    if one_closer(old, r, c, r, c + 1) {
        assert(new[block_index(r, c + 1)] == old[block_index(r, c + 1)]);
    }
}

proof fn lemma_neighbor_parent(d: Seq<u32>, rr: int, cc: int, r: int, c: int, nbs: Seq<(usize, usize)>, i: int)
    requires
        0 <= r < BLOCK_SIZE,
        0 <= c < BLOCK_SIZE,
        nbs == spec_neighbors(r as usize, c as usize),
        0 <= i < nbs.len(),
        nbs[i] == (rr as usize, cc as usize),
        0 <= rr < BLOCK_SIZE,
        0 <= cc < BLOCK_SIZE,
        dist_at(d, rr, cc) == dist_at(d, r, c) + 1,
    ensures
        has_parent(d, rr, cc),
{
    lemma_neighbors_adjacent(r as usize, c as usize);
    let p = nbs[i];
    if p.0 as int == r - 1 {
        assert(one_closer(d, rr, cc, rr + 1, cc));
    } else if p.0 as int == r + 1 {
        assert(one_closer(d, rr, cc, rr - 1, cc));
    } else if p.1 as int == c - 1 {
        assert(one_closer(d, rr, cc, rr, cc + 1));
    } else {
        assert(one_closer(d, rr, cc, rr, cc - 1));
    }
}

proof fn lemma_spreads_from_neighbors(d: Seq<u32>, r: usize, c: usize, nbs: Seq<(usize, usize)>)
    requires
        r < BLOCK_SIZE,
        c < BLOCK_SIZE,
        nbs == spec_neighbors(r, c),
        forall|t: int|
            0 <= t < nbs.len() ==> edge_ok(d, r as int, c as int, #[trigger] nbs[t].0 as int, nbs[t].1 as int),
    ensures
        spreads(d, r as int, c as int),
{
    lemma_neighbors_adjacent(r, c);
    if r >= 1 {
        let t = choose|t: int| 0 <= t < nbs.len() && nbs[t] == ((r - 1) as usize, c);
        assert(edge_ok(d, r as int, c as int, nbs[t].0 as int, nbs[t].1 as int));
    }
    if r + 1 < BLOCK_SIZE {
        let t = choose|t: int| 0 <= t < nbs.len() && nbs[t] == ((r + 1) as usize, c);
        assert(edge_ok(d, r as int, c as int, nbs[t].0 as int, nbs[t].1 as int));
    }
    if c >= 1 {
        let t = choose|t: int| 0 <= t < nbs.len() && nbs[t] == (r, (c - 1) as usize);
        assert(edge_ok(d, r as int, c as int, nbs[t].0 as int, nbs[t].1 as int));
    }
    if c + 1 < BLOCK_SIZE {
        let t = choose|t: int| 0 <= t < nbs.len() && nbs[t] == (r, (c + 1) as usize);
        assert(edge_ok(d, r as int, c as int, nbs[t].0 as int, nbs[t].1 as int));
    }
}

/// Distance of the last queued block.
spec fn last_dist(d: Seq<u32>, q: Seq<(usize, usize)>) -> u32 {
    dist_at(d, q.last().0 as int, q.last().1 as int)
}

/// Queue of a breadth-first search: blocks in the grid, in non-decreasing
/// order of distance, the k-th at most k steps away.
#[verifier::opaque]
spec fn queue_ok(d: Seq<u32>, q: Seq<(usize, usize)>) -> bool {
    &&& q.len() > 0
    &&& forall|k: int|
        0 <= k < q.len() ==> in_grid(#[trigger] q[k]) && dist_at(d, q[k].0 as int, q[k].1 as int)
            <= k
    &&& forall|i: int, j: int|
        0 <= i <= j < q.len() ==> dist_at(d, (#[trigger] q[i]).0 as int, q[i].1 as int) <= dist_at(
            d,
            (#[trigger] q[j]).0 as int,
            q[j].1 as int,
        )
}

/// Every reached block is open, no further than the last queued one, has a
/// neighbour one step closer unless it is the target, and either already
/// spreads to its neighbours or still waits in the queue at or after `head`.
#[verifier::opaque]
spec fn reached_ok(d: Seq<u32>, q: Seq<(usize, usize)>, head: int, tr: int, tc: int) -> bool {
    forall|r: int, c: int|
        spec_block_in_bounds(r, c) && #[trigger] dist_at(d, r, c) != UNREACHABLE ==> {
            &&& !spec_is_solid(r, c)
            &&& dist_at(d, r, c) <= last_dist(d, q)
            &&& (r != tr || c != tc) ==> has_parent(d, r, c)
            &&& spreads(d, r, c) || exists|k: int|
                head <= k < q.len() && #[trigger] q[k] == (r as usize, c as usize)
        }
}

proof fn lemma_queue_entry(d: Seq<u32>, q: Seq<(usize, usize)>, k: int)
    requires
        queue_ok(d, q),
        0 <= k < q.len(),
    ensures
        in_grid(q[k]),
        dist_at(d, q[k].0 as int, q[k].1 as int) <= k,
{
    reveal(queue_ok);
}

proof fn lemma_queue_mono(d: Seq<u32>, q: Seq<(usize, usize)>, i: int, j: int)
    requires
        queue_ok(d, q),
        0 <= i <= j < q.len(),
    ensures
        dist_at(d, q[i].0 as int, q[i].1 as int) <= dist_at(d, q[j].0 as int, q[j].1 as int),
{
    reveal(queue_ok);
}

proof fn lemma_reached_bound(
    d: Seq<u32>,
    q: Seq<(usize, usize)>,
    head: int,
    tr: int,
    tc: int,
    r: int,
    c: int,
)
    requires
        reached_ok(d, q, head, tr, tc),
        spec_block_in_bounds(r, c),
        dist_at(d, r, c) != UNREACHABLE,
    ensures
        !spec_is_solid(r, c),
        dist_at(d, r, c) <= last_dist(d, q),
{
    reveal(reached_ok);
}

proof fn lemma_bfs_start(empty: Seq<u32>, d: Seq<u32>, q: Seq<(usize, usize)>, tr: int, tc: int)
    requires
        is_unreachable_field(empty),
        spec_block_in_bounds(tr, tc),
        !spec_is_solid(tr, tc),
        d == empty.update(block_index(tr, tc), 0),
        q == seq![(tr as usize, tc as usize)],
    ensures
        d.len() == BLOCK_COUNT,
        dist_at(d, tr, tc) == 0,
        count_reached(d) == 1,
        queue_ok(d, q),
        reached_ok(d, q, 0, tr, tc),
        last_dist(d, q) <= dist_at(d, q[0].0 as int, q[0].1 as int) + 1,
{
    lemma_count_reached_none(empty);
    lemma_count_reached_update(empty, block_index(tr, tc), 0);
    reveal(queue_ok);
    reveal(reached_ok);
    assert forall|r: int, c: int|
        spec_block_in_bounds(r, c) && #[trigger] dist_at(d, r, c) != UNREACHABLE implies r == tr && c
        == tc by {
        assert(empty[block_index(r, c)] == UNREACHABLE);
    }
    assert(q[0] == (tr as usize, tc as usize));
}

proof fn lemma_push_frame(d: Seq<u32>, d2: Seq<u32>, ni: int, v: u32)
    requires
        d.len() == BLOCK_COUNT,
        0 <= ni < BLOCK_COUNT,
        d[ni] == UNREACHABLE,
        d2 == d.update(ni, v),
    ensures
        forall|k: int| 0 <= k < BLOCK_COUNT && d[k] != UNREACHABLE ==> #[trigger] d2[k] == d[k],
{
    assert forall|k: int| 0 <= k < BLOCK_COUNT && d[k] != UNREACHABLE implies #[trigger] d2[k]
        == d[k] by {
        assert(k != ni);
    }
}

proof fn lemma_push_queue(d: Seq<u32>, q: Seq<(usize, usize)>, d2: Seq<u32>, q2: Seq<(usize, usize)>, head: int, n: (usize, usize), v: u32)
    requires
        d.len() == BLOCK_COUNT,
        d2.len() == BLOCK_COUNT,
        queue_ok(d, q),
        0 <= head < q.len() <= BLOCK_COUNT,
        dist_at(d, q[head].0 as int, q[head].1 as int) == v,
        v <= head,
        last_dist(d, q) <= v + 1,
        in_grid(n),
        dist_at(d2, n.0 as int, n.1 as int) == v + 1,
        forall|k: int| 0 <= k < BLOCK_COUNT && d[k] != UNREACHABLE ==> #[trigger] d2[k] == d[k],
        q2 == q.push(n),
    ensures
        queue_ok(d2, q2),
        last_dist(d2, q2) == v + 1,
{
    reveal(queue_ok);
    assert forall|k: int| 0 <= k < q.len() implies dist_at(d2, (#[trigger] q2[k]).0 as int, q2[k].1 as int)
        == dist_at(d, q[k].0 as int, q[k].1 as int) by {
        assert(q2[k] == q[k]);
        assert(in_grid(q[k]));
        assert(dist_at(d, q[k].0 as int, q[k].1 as int) <= k);
        assert(0 <= block_index(q[k].0 as int, q[k].1 as int) < BLOCK_COUNT);
        assert(d2[block_index(q[k].0 as int, q[k].1 as int)] == d[block_index(q[k].0 as int, q[k].1 as int)]);
    }
    assert(q2[q.len() as int] == n);
    assert forall|k: int|
        0 <= k < q2.len() implies in_grid(#[trigger] q2[k]) && dist_at(d2, q2[k].0 as int, q2[k].1 as int)
        <= k by {
        if k < q.len() {
            assert(q2[k] == q[k]);
        }
    }
    assert(q.last() == q[q.len() - 1]);
    assert forall|a: int, b: int|
        0 <= a <= b < q2.len() implies dist_at(d2, (#[trigger] q2[a]).0 as int, q2[a].1 as int)
        <= dist_at(d2, (#[trigger] q2[b]).0 as int, q2[b].1 as int) by {
        if b < q.len() {
            assert(q2[a] == q[a]);
            assert(q2[b] == q[b]);
        } else if a < q.len() {
            assert(q2[a] == q[a]);
            assert(dist_at(d, q[a].0 as int, q[a].1 as int) <= dist_at(d, q[q.len() - 1].0 as int, q[q.len() - 1].1 as int));
        }
    }
}

proof fn lemma_push_reached(
    d: Seq<u32>,
    q: Seq<(usize, usize)>,
    d2: Seq<u32>,
    q2: Seq<(usize, usize)>,
    head: int,
    tr: int,
    tc: int,
    r: usize,
    c: usize,
    nbs: Seq<(usize, usize)>,
    i: int,
)
    requires
        d.len() == BLOCK_COUNT,
        d2.len() == BLOCK_COUNT,
        reached_ok(d, q, head, tr, tc),
        0 <= head < q.len(),
        in_grid((r, c)),
        nbs == spec_neighbors(r, c),
        0 <= i < nbs.len(),
        in_grid(nbs[i]),
        !spec_is_solid(nbs[i].0 as int, nbs[i].1 as int),
        dist_at(d, nbs[i].0 as int, nbs[i].1 as int) == UNREACHABLE,
        dist_at(d2, nbs[i].0 as int, nbs[i].1 as int) == dist_at(d, r as int, c as int) + 1,
        forall|k: int| 0 <= k < BLOCK_COUNT && d[k] != UNREACHABLE ==> #[trigger] d2[k] == d[k],
        forall|k: int| 0 <= k < BLOCK_COUNT && k != block_index(nbs[i].0 as int, nbs[i].1 as int) ==> #[trigger] d2[k] == d[k],
        q2 == q.push(nbs[i]),
        last_dist(d, q) <= last_dist(d2, q2),
        last_dist(d2, q2) == dist_at(d2, nbs[i].0 as int, nbs[i].1 as int),
    ensures
        reached_ok(d2, q2, head, tr, tc),
{
    reveal(reached_ok);
    let n = nbs[i];
    let ni = block_index(n.0 as int, n.1 as int);
    assert(q2[q.len() as int] == n);
    assert forall|rr: int, cc: int|
        spec_block_in_bounds(rr, cc) && #[trigger] dist_at(d2, rr, cc) != UNREACHABLE implies {
            &&& !spec_is_solid(rr, cc)
            &&& dist_at(d2, rr, cc) <= last_dist(d2, q2)
            &&& (rr != tr || cc != tc) ==> has_parent(d2, rr, cc)
            &&& spreads(d2, rr, cc) || exists|k: int|
                head <= k < q2.len() && #[trigger] q2[k] == (rr as usize, cc as usize)
        } by {
        if rr == n.0 as int && cc == n.1 as int {
            assert(q2[q.len() as int] == (rr as usize, cc as usize));
            lemma_neighbor_parent(d2, rr, cc, r as int, c as int, nbs, i);
        } else {
            assert(block_index(rr, cc) != ni);
            assert(d2[block_index(rr, cc)] == d[block_index(rr, cc)]);
            assert(dist_at(d, rr, cc) != UNREACHABLE);
            lemma_cell_grows(d, d2, rr, cc);
            if !spreads(d, rr, cc) {
                let k = choose|k: int| head <= k < q.len() && #[trigger] q[k] == (rr as usize, cc as usize);
                assert(q2[k] == (rr as usize, cc as usize));
            }
        }
    }
}

proof fn lemma_bfs_push(
    d: Seq<u32>,
    q: Seq<(usize, usize)>,
    d2: Seq<u32>,
    q2: Seq<(usize, usize)>,
    head: int,
    tr: int,
    tc: int,
    r: usize,
    c: usize,
    nbs: Seq<(usize, usize)>,
    i: int,
)
    requires
        d.len() == BLOCK_COUNT,
        queue_ok(d, q),
        reached_ok(d, q, head, tr, tc),
        0 <= head < q.len() <= BLOCK_COUNT,
        q[head] == (r, c),
        in_grid((r, c)),
        dist_at(d, r as int, c as int) <= head,
        last_dist(d, q) <= dist_at(d, r as int, c as int) + 1,
        nbs == spec_neighbors(r, c),
        0 <= i < nbs.len(),
        in_grid(nbs[i]),
        !spec_is_solid(nbs[i].0 as int, nbs[i].1 as int),
        dist_at(d, nbs[i].0 as int, nbs[i].1 as int) == UNREACHABLE,
        d2 == d.update(
            block_index(nbs[i].0 as int, nbs[i].1 as int),
            (dist_at(d, r as int, c as int) + 1) as u32,
        ),
        q2 == q.push(nbs[i]),
    ensures
        queue_ok(d2, q2),
        reached_ok(d2, q2, head, tr, tc),
        last_dist(d2, q2) == dist_at(d, r as int, c as int) + 1,
        dist_at(d2, r as int, c as int) == dist_at(d, r as int, c as int),
        edge_ok(d2, r as int, c as int, nbs[i].0 as int, nbs[i].1 as int),
        forall|k: int| 0 <= k < BLOCK_COUNT && d[k] != UNREACHABLE ==> #[trigger] d2[k] == d[k],
{
    let n = nbs[i];
    let v = dist_at(d, r as int, c as int);
    let ni = block_index(n.0 as int, n.1 as int);
    lemma_push_frame(d, d2, ni, (v + 1) as u32);
    assert(d2[ni] == v + 1);
    assert(d[block_index(r as int, c as int)] == v);
    lemma_push_queue(d, q, d2, q2, head, n, v);
    assert(last_dist(d, q) <= last_dist(d2, q2));
    lemma_push_reached(d, q, d2, q2, head, tr, tc, r, c, nbs, i);
}

proof fn lemma_bfs_advance(d: Seq<u32>, q: Seq<(usize, usize)>, head: int, tr: int, tc: int)
    requires
        reached_ok(d, q, head, tr, tc),
        0 <= head < q.len(),
        in_grid(q[head]),
        spreads(d, q[head].0 as int, q[head].1 as int),
    ensures
        reached_ok(d, q, head + 1, tr, tc),
{
    reveal(reached_ok);
    assert forall|r: int, c: int|
        spec_block_in_bounds(r, c) && #[trigger] dist_at(d, r, c) != UNREACHABLE implies spreads(d, r, c) || exists|k: int|
            head + 1 <= k < q.len() && #[trigger] q[k] == (r as usize, c as usize) by {
        if !spreads(d, r, c) {
            let k = choose|k: int| head <= k < q.len() && #[trigger] q[k] == (r as usize, c as usize);
            if k == head {
                assert(q[head].0 as int == r && q[head].1 as int == c);
            }
        }
    }
}

proof fn lemma_bfs_finish(d: Seq<u32>, q: Seq<(usize, usize)>, tr: int, tc: int)
    requires
        d.len() == BLOCK_COUNT,
        reached_ok(d, q, q.len() as int, tr, tc),
        spec_block_in_bounds(tr, tc),
        !spec_is_solid(tr, tc),
        dist_at(d, tr, tc) == 0,
    ensures
        is_distance_field(d, tr, tc),
{
    reveal(reached_ok);
    assert forall|r: int, c: int| spec_block_in_bounds(r, c) implies #[trigger] cell_ok(d, tr, tc, r, c) by {
        if dist_at(d, r, c) != UNREACHABLE {
            assert(spreads(d, r, c));
        }
    }
}

/// Breadth-first distances over the open blocks of the grid, row-major.
pub struct DistanceField {
    dist: Vec<u32>,
}

impl View for DistanceField {
    type V = Seq<u32>;

    closed spec fn view(&self) -> Seq<u32> {
        self.dist@
    }
}

impl DistanceField {
    #[verifier::type_invariant]
    spec fn well_sized(self) -> bool {
        self.dist@.len() == BLOCK_COUNT
    }

    /// A field where no block is reachable (the state before the first
    /// computation).
    pub fn unreachable_everywhere() -> (f: Self)
        ensures
            is_unreachable_field(f@),
    {
        let mut dist: Vec<u32> = Vec::new();
        let mut n: usize = 0;
        while n < BLOCK_COUNT
            invariant
                n <= BLOCK_COUNT,
                dist@.len() == n,
                forall|k: int| 0 <= k < n ==> dist@[k] == UNREACHABLE,
            decreases BLOCK_COUNT - n,
        {
            dist.push(UNREACHABLE);
            n = n + 1;
        }
        DistanceField { dist }
    }

    /// Breadth-first search from block (target_row, target_col) over the open
    /// blocks of the grid. If the target block is solid (which the player
    /// never is) no block is reachable.
    pub fn from_target(target_row: usize, target_col: usize) -> (f: Self)
        requires
            target_row < BLOCK_SIZE,
            target_col < BLOCK_SIZE,
        ensures
            spec_is_solid(target_row as int, target_col as int) ==> is_unreachable_field(f@),
            !spec_is_solid(target_row as int, target_col as int) ==> is_distance_field(
                f@,
                target_row as int,
                target_col as int,
            ),
    {
        let empty = Self::unreachable_everywhere();
        if BlockMap::is_solid_idx(target_row as isize, target_col as isize) {
            return empty;
        }
        let ghost tr = target_row as int;
        let ghost tc = target_col as int;
        let mut dist = empty.dist;
        let ghost empty_dist = dist@;
        dist.set(target_row * BLOCK_SIZE + target_col, 0);
        let mut queue: Vec<(usize, usize)> = Vec::new();
        queue.push((target_row, target_col));
        let mut head: usize = 0;
        proof {
            lemma_bfs_start(empty_dist, dist@, queue@, tr, tc);
        }

        while head < queue.len()
            invariant
                dist@.len() == BLOCK_COUNT,
                head <= queue@.len(),
                queue@.len() == count_reached(dist@),
                spec_block_in_bounds(tr, tc),
                !spec_is_solid(tr, tc),
                dist_at(dist@, tr, tc) == 0,
                queue_ok(dist@, queue@),
                reached_ok(dist@, queue@, head as int, tr, tc),
                head < queue@.len() ==> last_dist(dist@, queue@) <= dist_at(
                    dist@,
                    queue@[head as int].0 as int,
                    queue@[head as int].1 as int,
                ) + 1,
            decreases BLOCK_COUNT - head,
        {
            proof {
                lemma_count_reached_le_len(dist@);
                lemma_queue_entry(dist@, queue@, head as int);
            }
            let (r, c) = queue[head];
            let d = dist[r * BLOCK_SIZE + c];
            let nbs = neighbors(r, c);
            let mut i: usize = 0;
            while i < nbs.len()
                invariant
                    dist@.len() == BLOCK_COUNT,
                    head < queue@.len(),
                    queue@.len() == count_reached(dist@),
                    spec_block_in_bounds(tr, tc),
                    !spec_is_solid(tr, tc),
                    dist_at(dist@, tr, tc) == 0,
                    (r, c) == queue@[head as int],
                    in_grid((r, c)),
                    d == dist_at(dist@, r as int, c as int),
                    d <= head,
                    i <= nbs@.len(),
                    nbs@ == spec_neighbors(r, c),
                    queue_ok(dist@, queue@),
                    reached_ok(dist@, queue@, head as int, tr, tc),
                    last_dist(dist@, queue@) <= d + 1,
                    forall|t: int|
                        0 <= t < i ==> edge_ok(
                            dist@,
                            r as int,
                            c as int,
                            #[trigger] nbs@[t].0 as int,
                            nbs@[t].1 as int,
                        ),
                decreases nbs.len() - i,
            {
                let (nr, nc) = nbs[i];
                proof {
                    lemma_neighbors_adjacent(r, c);
                    assert(in_grid(nbs@[i as int]));
                }
                if !BlockMap::is_solid_idx(nr as isize, nc as isize) {
                    let nd = dist[nr * BLOCK_SIZE + nc];
                    if nd == UNREACHABLE {
                        let ghost old_dist = dist@;
                        let ghost old_queue = queue@;
                        proof {
                            lemma_count_reached_le_len(dist@);
                            lemma_count_reached_update(
                                dist@,
                                block_index(nr as int, nc as int),
                                (d + 1) as u32,
                            );
                        }
                        dist.set(nr * BLOCK_SIZE + nc, d + 1);
                        queue.push((nr, nc));
                        proof {
                            lemma_bfs_push(
                                old_dist,
                                old_queue,
                                dist@,
                                queue@,
                                head as int,
                                tr,
                                tc,
                                r,
                                c,
                                nbs@,
                                i as int,
                            );
                            assert forall|t: int| 0 <= t < i implies edge_ok(
                                dist@,
                                r as int,
                                c as int,
                                #[trigger] nbs@[t].0 as int,
                                nbs@[t].1 as int,
                            ) by {
                                lemma_edge_grows(
                                    old_dist,
                                    dist@,
                                    r as int,
                                    c as int,
                                    nbs@[t].0 as int,
                                    nbs@[t].1 as int,
                                );
                            }
                        }
                    } else {
                        proof {
                            lemma_reached_bound(dist@, queue@, head as int, tr, tc, nr as int, nc as int);
                        }
                    }
                }
                i = i + 1;
            }
            proof {
                lemma_spreads_from_neighbors(dist@, r, c, nbs@);
                lemma_bfs_advance(dist@, queue@, head as int, tr, tc);
                if head + 1 < queue@.len() {
                    lemma_queue_mono(dist@, queue@, head as int, head + 1);
                }
            }
            head = head + 1;
        }
        proof {
            lemma_bfs_finish(dist@, queue@, tr, tc);
        }
        DistanceField { dist }
    }

    /// Distance stored for block (row, col).
    pub fn get(&self, row: usize, col: usize) -> (v: u32)
        requires
            row < BLOCK_SIZE,
            col < BLOCK_SIZE,
        ensures
            v == dist_at(self@, row as int, col as int),
    {
        proof {
            use_type_invariant(self);
        }
        self.dist[row * BLOCK_SIZE + col]
    }

    /// Neighbour of (row, col) to step to: among the reachable orthogonal
    /// neighbours, the first (in north, south, west, east order) with the
    /// smallest distance; `None` when none is reachable. In a distance field
    /// towards a target, every open block other than the target gets a
    /// neighbour one step closer, since the maze is connected.
    pub fn best_neighbor(&self, row: usize, col: usize) -> (b: Option<(usize, usize)>)
        requires
            row < usize::MAX,
            col < usize::MAX,
        ensures
            match b {
                None => forall|t: int|
                    0 <= t < spec_neighbors(row, col).len() ==> dist_at(
                        self@,
                        (#[trigger] spec_neighbors(row, col)[t]).0 as int,
                        spec_neighbors(row, col)[t].1 as int,
                    ) == UNREACHABLE,
                Some(p) => exists|t: int|
                    is_first_closest(self@, spec_neighbors(row, col), t) && #[trigger] spec_neighbors(
                        row,
                        col,
                    )[t] == p,
            },
            forall|tr: int, tc: int|
                #[trigger] is_distance_field(self@, tr, tc) && row < BLOCK_SIZE && col < BLOCK_SIZE
                    && !spec_is_solid(row as int, col as int) && (row != tr || col != tc) ==> b is Some
                    && dist_at(self@, b.unwrap().0 as int, b.unwrap().1 as int) + 1 == dist_at(
                    self@,
                    row as int,
                    col as int,
                ),
    {
        let nbs = neighbors(row, col);
        let mut best: Option<(usize, usize, u32)> = None;
        let ghost mut bt: int = 0;
        let mut i: usize = 0;
        while i < nbs.len()
            invariant
                i <= nbs@.len(),
                nbs@ == spec_neighbors(row, col),
                forall|t: int| 0 <= t < nbs@.len() ==> #[trigger] in_grid(nbs@[t]),
                match best {
                    None => forall|t: int|
                        0 <= t < i ==> dist_at(self@, (#[trigger] nbs@[t]).0 as int, nbs@[t].1 as int)
                            == UNREACHABLE,
                    Some(bb) => {
                        &&& 0 <= bt < i
                        &&& nbs@[bt] == (bb.0, bb.1)
                        &&& bb.2 == dist_at(self@, bb.0 as int, bb.1 as int)
                        &&& bb.2 != UNREACHABLE
                        &&& forall|t: int|
                            0 <= t < i && dist_at(self@, (#[trigger] nbs@[t]).0 as int, nbs@[t].1 as int)
                                != UNREACHABLE ==> bb.2 <= dist_at(self@, nbs@[t].0 as int, nbs@[t].1 as int)
                        &&& forall|t: int|
                            0 <= t < bt ==> dist_at(self@, (#[trigger] nbs@[t]).0 as int, nbs@[t].1 as int)
                                == UNREACHABLE || dist_at(self@, nbs@[t].0 as int, nbs@[t].1 as int) > bb.2
                    },
                },
            decreases nbs.len() - i,
        {
            let (nr, nc) = nbs[i];
            assert(in_grid(nbs@[i as int]));
            let d = self.get(nr, nc);
            if d != UNREACHABLE {
                let better = match best {
                    None => true,
                    Some((_, _, bd)) => d < bd,
                };
                if better {
                    best = Some((nr, nc, d));
                    proof {
                        bt = i as int;
                    }
                }
            }
            i = i + 1;
        }
        let b = match best {
            None => None,
            Some((br, bc, _)) => Some((br, bc)),
        };
        proof {
            if best is Some {
                assert(is_first_closest(self@, spec_neighbors(row, col), bt));
            }
            assert forall|tr: int, tc: int|
                #[trigger] is_distance_field(self@, tr, tc) && row < BLOCK_SIZE && col < BLOCK_SIZE
                    && !spec_is_solid(row as int, col as int) && (row != tr || col != tc) implies b is Some
                    && dist_at(self@, b.unwrap().0 as int, b.unwrap().1 as int) + 1 == dist_at(
                    self@,
                    row as int,
                    col as int,
                ) by {
                lemma_maze_connected(self@, tr, tc);
                assert(dist_at(self@, row as int, col as int) != UNREACHABLE);
                assert(cell_ok(self@, tr, tc, row as int, col as int));
                assert(0 < dist_at(self@, row as int, col as int));
                lemma_descent(self@, tr, tc, row, col, nbs@);
                if best is Some {
                    assert(is_first_closest(self@, nbs@, bt));
                }
            }
        }
        b
    }
}

/// `nbs[t]` is reachable and no farther than any reachable entry of `nbs`,
/// and every reachable entry before it is strictly farther.
pub open spec fn is_first_closest(d: Seq<u32>, nbs: Seq<(usize, usize)>, t: int) -> bool {
    &&& 0 <= t < nbs.len()
    &&& dist_at(d, nbs[t].0 as int, nbs[t].1 as int) != UNREACHABLE
    &&& forall|t2: int|
        0 <= t2 < nbs.len() && dist_at(d, (#[trigger] nbs[t2]).0 as int, nbs[t2].1 as int)
            != UNREACHABLE ==> dist_at(d, nbs[t].0 as int, nbs[t].1 as int) <= dist_at(
            d,
            nbs[t2].0 as int,
            nbs[t2].1 as int,
        )
    &&& forall|t2: int|
        0 <= t2 < t ==> dist_at(d, (#[trigger] nbs[t2]).0 as int, nbs[t2].1 as int) == UNREACHABLE
            || dist_at(d, nbs[t2].0 as int, nbs[t2].1 as int) > dist_at(
            d,
            nbs[t].0 as int,
            nbs[t].1 as int,
        )
}

/// In a distance field, a reached block other than the target has a
/// neighbour exactly one step closer, and no reachable neighbour is closer
/// than that.
proof fn lemma_descent(d: Seq<u32>, tr: int, tc: int, row: usize, col: usize, nbs: Seq<(usize, usize)>)
    requires
        is_distance_field(d, tr, tc),
        row < BLOCK_SIZE,
        col < BLOCK_SIZE,
        nbs == spec_neighbors(row, col),
        0 < dist_at(d, row as int, col as int),
        dist_at(d, row as int, col as int) != UNREACHABLE,
    ensures
        exists|t: int|
            0 <= t < nbs.len() && dist_at(d, (#[trigger] nbs[t]).0 as int, nbs[t].1 as int) + 1
                == dist_at(d, row as int, col as int),
        forall|t: int|
            0 <= t < nbs.len() && dist_at(d, (#[trigger] nbs[t]).0 as int, nbs[t].1 as int)
                != UNREACHABLE ==> dist_at(d, nbs[t].0 as int, nbs[t].1 as int) + 1 >= dist_at(
                d,
                row as int,
                col as int,
            ),
{
    let r = row as int;
    let c = col as int;
    lemma_neighbors_adjacent(row, col);
    assert(cell_ok(d, tr, tc, r, c));
    assert(r != tr || c != tc);
    if one_closer(d, r, c, r - 1, c) {
        let t = choose|t: int| 0 <= t < nbs.len() && nbs[t] == ((r - 1) as usize, col);
        assert(dist_at(d, nbs[t].0 as int, nbs[t].1 as int) + 1 == dist_at(d, r, c));
    } else if one_closer(d, r, c, r + 1, c) {
        let t = choose|t: int| 0 <= t < nbs.len() && nbs[t] == ((r + 1) as usize, col);
        assert(dist_at(d, nbs[t].0 as int, nbs[t].1 as int) + 1 == dist_at(d, r, c));
    } else if one_closer(d, r, c, r, c - 1) {
        let t = choose|t: int| 0 <= t < nbs.len() && nbs[t] == (row, (c - 1) as usize);
        assert(dist_at(d, nbs[t].0 as int, nbs[t].1 as int) + 1 == dist_at(d, r, c));
    } else {
        let t = choose|t: int| 0 <= t < nbs.len() && nbs[t] == (row, (c + 1) as usize);
        assert(dist_at(d, nbs[t].0 as int, nbs[t].1 as int) + 1 == dist_at(d, r, c));
    }
    assert forall|t: int|
        0 <= t < nbs.len() && dist_at(d, (#[trigger] nbs[t]).0 as int, nbs[t].1 as int)
            != UNREACHABLE implies dist_at(d, nbs[t].0 as int, nbs[t].1 as int) + 1 >= dist_at(
            d,
            r,
            c,
        ) by {
        let p = nbs[t];
        let pr = p.0 as int;
        let pc = p.1 as int;
        assert(cell_ok(d, tr, tc, pr, pc));
        assert(spreads(d, pr, pc));
        assert(cell_ok(d, tr, tc, r, c));
    }
}

/// Blocks p and q are orthogonal neighbours.
pub open spec fn adjacent(p: (int, int), q: (int, int)) -> bool {
    ||| p.0 == q.0 && (p.1 - q.1 == 1 || q.1 - p.1 == 1)
    ||| p.1 == q.1 && (p.0 - q.0 == 1 || q.0 - p.0 == 1)
}

/// A non-empty walk over open blocks, each step to an orthogonal neighbour.
pub open spec fn is_open_walk(w: Seq<(int, int)>) -> bool {
    &&& w.len() > 0
    &&& forall|k: int| 0 <= k < w.len() ==> !spec_is_solid((#[trigger] w[k]).0, w[k].1)
    &&& forall|k: int| 0 <= k < w.len() - 1 ==> adjacent(#[trigger] w[k], w[k + 1])
}

proof fn lemma_walk_bounds_distance(d: Seq<u32>, tr: int, tc: int, w: Seq<(int, int)>)
    requires
        is_distance_field(d, tr, tc),
        is_open_walk(w),
        w[0] == (tr, tc),
    ensures
        dist_at(d, w.last().0, w.last().1) != UNREACHABLE,
        dist_at(d, w.last().0, w.last().1) <= w.len() - 1,
    decreases w.len(),
{
    if w.len() > 1 {
        let w2 = w.drop_last();
        assert forall|k: int| 0 <= k < w2.len() implies !spec_is_solid((#[trigger] w2[k]).0, w2[k].1) by {
            assert(w2[k] == w[k]);
        }
        assert forall|k: int| 0 <= k < w2.len() - 1 implies adjacent(#[trigger] w2[k], w2[k + 1]) by {
            assert(w2[k] == w[k]);
            assert(w2[k + 1] == w[k + 1]);
        }
        lemma_walk_bounds_distance(d, tr, tc, w2);
        let p = w2.last();
        let q = w.last();
        assert(p == w[w.len() - 2]);
        assert(adjacent(w[w.len() - 2], w[w.len() - 1]));
        assert(!spec_is_solid(w[w.len() - 1].0, w[w.len() - 1].1));
        assert(!spec_is_solid(w[w.len() - 2].0, w[w.len() - 2].1));
        assert(cell_ok(d, tr, tc, p.0, p.1));
    }
}

proof fn lemma_walk_to(d: Seq<u32>, tr: int, tc: int, r: int, c: int) -> (w: Seq<(int, int)>)
    requires
        is_distance_field(d, tr, tc),
        spec_block_in_bounds(r, c),
        dist_at(d, r, c) != UNREACHABLE,
    ensures
        is_open_walk(w),
        w[0] == (tr, tc),
        w.last() == (r, c),
        w.len() == dist_at(d, r, c) + 1,
    decreases dist_at(d, r, c),
{
    assert(cell_ok(d, tr, tc, r, c));
    if r == tr && c == tc {
        seq![(r, c)]
    } else {
        let (pr, pc) = if one_closer(d, r, c, r - 1, c) {
            (r - 1, c)
        } else if one_closer(d, r, c, r + 1, c) {
            (r + 1, c)
        } else if one_closer(d, r, c, r, c - 1) {
            (r, c - 1)
        } else {
            (r, c + 1)
        };
        assert(cell_ok(d, tr, tc, pr, pc));
        let w0 = lemma_walk_to(d, tr, tc, pr, pc);
        let w = w0.push((r, c));
        assert forall|k: int| 0 <= k < w.len() implies !spec_is_solid((#[trigger] w[k]).0, w[k].1) by {
            if k < w0.len() {
                assert(w[k] == w0[k]);
            }
        }
        assert forall|k: int| 0 <= k < w.len() - 1 implies adjacent(#[trigger] w[k], w[k + 1]) by {
            assert(w[k] == w0[k]);
            if k + 1 < w0.len() {
                assert(w[k + 1] == w0[k + 1]);
            } else {
                assert(w0[k] == w0.last());
            }
        }
        assert(w[0] == w0[0]);
        w
    }
}

/// The breadth-first distance of a block is the length of the shortest walk
/// over open blocks from the target to it: every such walk is at least that
/// long, and one of exactly that length exists. A block is `UNREACHABLE`
/// exactly when no such walk exists.
pub proof fn lemma_distance_is_shortest_walk(d: Seq<u32>, tr: int, tc: int, r: int, c: int)
    requires
        is_distance_field(d, tr, tc),
        spec_block_in_bounds(r, c),
    ensures
        forall|w: Seq<(int, int)>|
            #[trigger] is_open_walk(w) && w[0] == (tr, tc) && w.last() == (r, c) ==> dist_at(d, r, c)
                != UNREACHABLE && dist_at(d, r, c) <= w.len() - 1,
        dist_at(d, r, c) != UNREACHABLE ==> exists|w: Seq<(int, int)>|
            #[trigger] is_open_walk(w) && w[0] == (tr, tc) && w.last() == (r, c) && w.len() == dist_at(
                d,
                r,
                c,
            ) + 1,
{
    assert forall|w: Seq<(int, int)>|
        #[trigger] is_open_walk(w) && w[0] == (tr, tc) && w.last() == (r, c) implies dist_at(d, r, c)
            != UNREACHABLE && dist_at(d, r, c) <= w.len() - 1 by {
        lemma_walk_bounds_distance(d, tr, tc, w);
    }
    if dist_at(d, r, c) != UNREACHABLE {
        let w = lemma_walk_to(d, tr, tc, r, c);
        assert(is_open_walk(w) && w[0] == (tr, tc) && w.last() == (r, c));
    }
}

// ---------------------------------------------------------------------------
// Pursuit: the enemy's navigation state
// ---------------------------------------------------------------------------

/// Frame counter after one more frame with the given recomputation interval,
/// and whether the distance field is recomputed on that frame.
pub open spec fn spec_tick(frames: u32, interval: u32) -> (u32, bool) {
    if frames + 1 >= interval {
        (0, true)
    } else {
        ((frames + 1) as u32, false)
    }
}

/// Index of the block the pathfinding targets for a raw block index: clamped
/// to the grid.
pub open spec fn clamp_to_grid(i: usize) -> usize {
    if i < BLOCK_SIZE - 1 {
        i
    } else {
        (BLOCK_SIZE - 1) as usize
    }
}

/// The distance field `d` is what a breadth-first search from block (r, c)
/// gives.
pub open spec fn is_search_from(d: Seq<u32>, r: int, c: int) -> bool {
    &&& spec_is_solid(r, c) ==> is_unreachable_field(d)
    &&& !spec_is_solid(r, c) ==> is_distance_field(d, r, c)
}

/// The integer side of the enemy's behaviour: when to recompute the
/// distance field towards the player, the field itself, and whether the
/// enemy stood on a junction on the previous frame.
pub struct Pursuit {
    frames_since_recalc: u32,
    field: DistanceField,
    was_at_junction: bool,
}

impl Pursuit {
    #[verifier::type_invariant]
    spec fn counter_in_range(self) -> bool {
        self.frames_since_recalc < u32::MAX
    }

    /// Frames since the last recomputation of the distance field.
    pub closed spec fn frames(self) -> u32 {
        self.frames_since_recalc
    }

    /// The current distance field.
    pub closed spec fn distances(self) -> Seq<u32> {
        self.field@
    }

    /// Whether the enemy stood on a junction on the previous frame.
    pub closed spec fn at_junction_before(self) -> bool {
        self.was_at_junction
    }

    /// A fresh pursuit: nothing reachable yet, and the counter set so that the
    /// first tick with the default interval recomputes the field at once.
    pub fn new() -> (p: Self)
        ensures
            p.frames() == PATHFIND_RECALC_FRAMES,
            is_unreachable_field(p.distances()),
            !p.at_junction_before(),
    {
        Pursuit {
            frames_since_recalc: PATHFIND_RECALC_FRAMES,
            field: DistanceField::unreachable_everywhere(),
            was_at_junction: false,
        }
    }

    /// One frame of the pathfinding clock: counts the frame and, once
    /// `recalc_interval_frames` frames have passed, recomputes the distance
    /// field from the player's block (clamped to the grid) and restarts the
    /// count. Returns whether it recomputed.
    pub fn tick(&mut self, player_row: usize, player_col: usize, recalc_interval_frames: u32) -> (recomputed: bool)
        ensures
            (final(self).frames(), recomputed) == spec_tick(old(self).frames(), recalc_interval_frames),
            recomputed ==> is_search_from(
                final(self).distances(),
                clamp_to_grid(player_row) as int,
                clamp_to_grid(player_col) as int,
            ),
            !recomputed ==> final(self).distances() == old(self).distances(),
            final(self).at_junction_before() == old(self).at_junction_before(),
    {
        proof {
            use_type_invariant(&*self);
        }
        let frames = self.frames_since_recalc + 1;
        if frames >= recalc_interval_frames {
            let r = if player_row < BLOCK_SIZE - 1 { player_row } else { BLOCK_SIZE - 1 };
            let c = if player_col < BLOCK_SIZE - 1 { player_col } else { BLOCK_SIZE - 1 };
            self.field = DistanceField::from_target(r, c);
            self.frames_since_recalc = 0;
            true
        } else {
            self.frames_since_recalc = frames;
            false
        }
    }

    /// Notes the block the enemy stands on this frame. Returns `true` when it
    /// has just arrived at a junction (it is on one now and was not on the
    /// previous frame): the moment to pause.
    pub fn arrive(&mut self, row: usize, col: usize) -> (pause: bool)
        requires
            row < usize::MAX,
            col < usize::MAX,
        ensures
            final(self).at_junction_before() == (open_neighbor_count(row as int, col as int) >= 3),
            pause == (final(self).at_junction_before() && !old(self).at_junction_before()),
            final(self).frames() == old(self).frames(),
            final(self).distances() == old(self).distances(),
    {
        proof {
            use_type_invariant(&*self);
        }
        let at_junction = is_junction(row, col);
        let pause = at_junction && !self.was_at_junction;
        self.was_at_junction = at_junction;
        pause
    }

    /// Block to walk towards from (row, col): the first closest reachable
    /// neighbour in the current distance field (see
    /// `DistanceField::best_neighbor`). Once the field has been computed
    /// from an open block, every other open block has a next step.
    pub fn next_step(&self, row: usize, col: usize) -> (b: Option<(usize, usize)>)
        requires
            row < usize::MAX,
            col < usize::MAX,
        ensures
            match b {
                None => forall|t: int|
                    0 <= t < spec_neighbors(row, col).len() ==> dist_at(
                        self.distances(),
                        (#[trigger] spec_neighbors(row, col)[t]).0 as int,
                        spec_neighbors(row, col)[t].1 as int,
                    ) == UNREACHABLE,
                Some(p) => exists|t: int|
                    is_first_closest(self.distances(), spec_neighbors(row, col), t)
                        && #[trigger] spec_neighbors(row, col)[t] == p,
            },
            forall|tr: int, tc: int|
                #[trigger] is_distance_field(self.distances(), tr, tc) && row < BLOCK_SIZE && col
                    < BLOCK_SIZE && !spec_is_solid(row as int, col as int) && (row != tr || col != tc)
                    ==> b is Some && dist_at(
                    self.distances(),
                    b.unwrap().0 as int,
                    b.unwrap().1 as int,
                ) + 1 == dist_at(self.distances(), row as int, col as int),
    {
        self.field.best_neighbor(row, col)
    }
}

/// Frame counter after `k` ticks with a fixed interval, starting right after
/// a recomputation.
pub open spec fn frames_after(interval: u32, k: nat) -> u32
    decreases k,
{
    if k == 0 {
        0
    } else {
        spec_tick(frames_after(interval, (k - 1) as nat), interval).0
    }
}

/// With a fixed interval of `n` frames, the distance field is recomputed
/// every `n` frames: after a recomputation, the next `n - 1` ticks do not
/// recompute and the `n`-th does.
pub proof fn lemma_recompute_period(n: u32, k: nat)
    requires
        n >= 1,
        1 <= k <= n,
    ensures
        spec_tick(frames_after(n, (k - 1) as nat), n).1 == (k == n),
        k < n ==> frames_after(n, k) == k,
    decreases k,
{
    if k > 1 {
        lemma_recompute_period(n, (k - 1) as nat);
    }
}

/// A fresh pursuit recomputes its field on the very first tick whenever the
/// interval is at most one more than the default interval (every difficulty
/// qualifies).
pub proof fn lemma_first_tick_recomputes(interval: u32)
    requires
        interval <= PATHFIND_RECALC_FRAMES + 1,
    ensures
        spec_tick(PATHFIND_RECALC_FRAMES, interval).1,
{
}

// ---------------------------------------------------------------------------
// Connectivity of the maze
// ---------------------------------------------------------------------------

/// Number of cell-to-cell steps from cell (0, 0) to maze cell (i, j) along a
/// spanning tree of the maze.
spec fn cell_depth(i: int, j: int) -> nat {
    let row = if i == 0 {
        seq![0nat, 1nat, 2nat, 3nat, 4nat, 5nat, 6nat, 7nat, 8nat, 9nat]
    } else if i == 1 {
        seq![41nat, 2nat, 5nat, 6nat, 5nat, 6nat, 7nat, 8nat, 9nat, 10nat]
    } else if i == 2 {
        seq![40nat, 3nat, 4nat, 7nat, 6nat, 7nat, 8nat, 9nat, 10nat, 11nat]
    } else if i == 3 {
        seq![39nat, 38nat, 37nat, 38nat, 7nat, 8nat, 9nat, 10nat, 11nat, 12nat]
    } else if i == 4 {
        seq![40nat, 41nat, 36nat, 35nat, 8nat, 9nat, 10nat, 11nat, 14nat, 13nat]
    } else if i == 5 {
        seq![31nat, 32nat, 33nat, 34nat, 37nat, 38nat, 39nat, 12nat, 15nat, 14nat]
    } else if i == 6 {
        seq![30nat, 29nat, 36nat, 35nat, 36nat, 37nat, 40nat, 13nat, 16nat, 15nat]
    } else if i == 7 {
        seq![29nat, 28nat, 27nat, 36nat, 37nat, 40nat, 41nat, 14nat, 15nat, 16nat]
    } else if i == 8 {
        seq![30nat, 31nat, 26nat, 39nat, 38nat, 39nat, 42nat, 19nat, 18nat, 17nat]
    } else {
        seq![33nat, 32nat, 25nat, 24nat, 23nat, 22nat, 21nat, 20nat, 19nat, 20nat]
    };
    row[j]
}

/// Maze cell (i2, j2) is next to cell (i, j), one step closer to cell (0, 0)
/// in the spanning tree, and the wall between the two is open.
spec fn tree_parent_ok(i: int, j: int, i2: int, j2: int) -> bool {
    &&& 0 <= i2 < GRID_SIZE
    &&& 0 <= j2 < GRID_SIZE
    &&& adjacent((i, j), (i2, j2))
    &&& cell_depth(i2, j2) + 1 == cell_depth(i, j)
    &&& !spec_is_solid(i + i2 + 1, j + j2 + 1)
}

proof fn lemma_tree_parent(i: int, j: int)
    requires
        0 <= i < GRID_SIZE,
        0 <= j < GRID_SIZE,
        i != 0 || j != 0,
    ensures
        exists|i2: int, j2: int| #[trigger] tree_parent_ok(i, j, i2, j2),
{
    reveal(mask_bit);
    if i == 0 {
        if j == 0 {} else if j == 1 { assert(tree_parent_ok(0, 1, 0, 0)); }
        else if j == 2 { assert(tree_parent_ok(0, 2, 0, 1)); } else if j == 3 { assert(tree_parent_ok(0, 3, 0, 2)); }
        else if j == 4 { assert(tree_parent_ok(0, 4, 0, 3)); } else if j == 5 { assert(tree_parent_ok(0, 5, 0, 4)); }
        else if j == 6 { assert(tree_parent_ok(0, 6, 0, 5)); } else if j == 7 { assert(tree_parent_ok(0, 7, 0, 6)); }
        else if j == 8 { assert(tree_parent_ok(0, 8, 0, 7)); } else if j == 9 { assert(tree_parent_ok(0, 9, 0, 8)); }
    } else if i == 1 {
        if j == 0 { assert(tree_parent_ok(1, 0, 2, 0)); } else if j == 1 { assert(tree_parent_ok(1, 1, 0, 1)); }
        else if j == 2 { assert(tree_parent_ok(1, 2, 2, 2)); } else if j == 3 { assert(tree_parent_ok(1, 3, 1, 2)); }
        else if j == 4 { assert(tree_parent_ok(1, 4, 0, 4)); } else if j == 5 { assert(tree_parent_ok(1, 5, 1, 4)); }
        else if j == 6 { assert(tree_parent_ok(1, 6, 0, 6)); } else if j == 7 { assert(tree_parent_ok(1, 7, 1, 6)); }
        else if j == 8 { assert(tree_parent_ok(1, 8, 0, 8)); } else if j == 9 { assert(tree_parent_ok(1, 9, 1, 8)); }
    } else if i == 2 {
        if j == 0 { assert(tree_parent_ok(2, 0, 3, 0)); } else if j == 1 { assert(tree_parent_ok(2, 1, 1, 1)); }
        else if j == 2 { assert(tree_parent_ok(2, 2, 2, 1)); } else if j == 3 { assert(tree_parent_ok(2, 3, 1, 3)); }
        else if j == 4 { assert(tree_parent_ok(2, 4, 1, 4)); } else if j == 5 { assert(tree_parent_ok(2, 5, 1, 5)); }
        else if j == 6 { assert(tree_parent_ok(2, 6, 1, 6)); } else if j == 7 { assert(tree_parent_ok(2, 7, 2, 6)); }
        else if j == 8 { assert(tree_parent_ok(2, 8, 1, 8)); } else if j == 9 { assert(tree_parent_ok(2, 9, 2, 8)); }
    } else if i == 3 {
        if j == 0 { assert(tree_parent_ok(3, 0, 3, 1)); } else if j == 1 { assert(tree_parent_ok(3, 1, 3, 2)); }
        else if j == 2 { assert(tree_parent_ok(3, 2, 4, 2)); } else if j == 3 { assert(tree_parent_ok(3, 3, 3, 2)); }
        else if j == 4 { assert(tree_parent_ok(3, 4, 2, 4)); } else if j == 5 { assert(tree_parent_ok(3, 5, 2, 5)); }
        else if j == 6 { assert(tree_parent_ok(3, 6, 3, 5)); } else if j == 7 { assert(tree_parent_ok(3, 7, 2, 7)); }
        else if j == 8 { assert(tree_parent_ok(3, 8, 3, 7)); } else if j == 9 { assert(tree_parent_ok(3, 9, 3, 8)); }
    } else if i == 4 {
        if j == 0 { assert(tree_parent_ok(4, 0, 3, 0)); } else if j == 1 { assert(tree_parent_ok(4, 1, 4, 0)); }
        else if j == 2 { assert(tree_parent_ok(4, 2, 4, 3)); } else if j == 3 { assert(tree_parent_ok(4, 3, 5, 3)); }
        else if j == 4 { assert(tree_parent_ok(4, 4, 3, 4)); } else if j == 5 { assert(tree_parent_ok(4, 5, 4, 4)); }
        else if j == 6 { assert(tree_parent_ok(4, 6, 4, 5)); } else if j == 7 { assert(tree_parent_ok(4, 7, 4, 6)); }
        else if j == 8 { assert(tree_parent_ok(4, 8, 4, 9)); } else if j == 9 { assert(tree_parent_ok(4, 9, 3, 9)); }
    } else if i == 5 {
        if j == 0 { assert(tree_parent_ok(5, 0, 6, 0)); } else if j == 1 { assert(tree_parent_ok(5, 1, 5, 0)); }
        else if j == 2 { assert(tree_parent_ok(5, 2, 5, 1)); } else if j == 3 { assert(tree_parent_ok(5, 3, 5, 2)); }
        else if j == 4 { assert(tree_parent_ok(5, 4, 6, 4)); } else if j == 5 { assert(tree_parent_ok(5, 5, 5, 4)); }
        else if j == 6 { assert(tree_parent_ok(5, 6, 5, 5)); } else if j == 7 { assert(tree_parent_ok(5, 7, 4, 7)); }
        else if j == 8 { assert(tree_parent_ok(5, 8, 4, 8)); } else if j == 9 { assert(tree_parent_ok(5, 9, 4, 9)); }
    } else if i == 6 {
        if j == 0 { assert(tree_parent_ok(6, 0, 6, 1)); } else if j == 1 { assert(tree_parent_ok(6, 1, 7, 1)); }
        else if j == 2 { assert(tree_parent_ok(6, 2, 6, 3)); } else if j == 3 { assert(tree_parent_ok(6, 3, 5, 3)); }
        else if j == 4 { assert(tree_parent_ok(6, 4, 6, 3)); } else if j == 5 { assert(tree_parent_ok(6, 5, 6, 4)); }
        else if j == 6 { assert(tree_parent_ok(6, 6, 5, 6)); } else if j == 7 { assert(tree_parent_ok(6, 7, 5, 7)); }
        else if j == 8 { assert(tree_parent_ok(6, 8, 6, 9)); } else if j == 9 { assert(tree_parent_ok(6, 9, 5, 9)); }
    } else if i == 7 {
        if j == 0 { assert(tree_parent_ok(7, 0, 7, 1)); } else if j == 1 { assert(tree_parent_ok(7, 1, 7, 2)); }
        else if j == 2 { assert(tree_parent_ok(7, 2, 8, 2)); } else if j == 3 { assert(tree_parent_ok(7, 3, 6, 3)); }
        else if j == 4 { assert(tree_parent_ok(7, 4, 7, 3)); } else if j == 5 { assert(tree_parent_ok(7, 5, 8, 5)); }
        else if j == 6 { assert(tree_parent_ok(7, 6, 7, 5)); } else if j == 7 { assert(tree_parent_ok(7, 7, 6, 7)); }
        else if j == 8 { assert(tree_parent_ok(7, 8, 7, 7)); } else if j == 9 { assert(tree_parent_ok(7, 9, 7, 8)); }
    } else if i == 8 {
        if j == 0 { assert(tree_parent_ok(8, 0, 7, 0)); } else if j == 1 { assert(tree_parent_ok(8, 1, 8, 0)); }
        else if j == 2 { assert(tree_parent_ok(8, 2, 9, 2)); } else if j == 3 { assert(tree_parent_ok(8, 3, 8, 4)); }
        else if j == 4 { assert(tree_parent_ok(8, 4, 7, 4)); } else if j == 5 { assert(tree_parent_ok(8, 5, 8, 4)); }
        else if j == 6 { assert(tree_parent_ok(8, 6, 7, 6)); } else if j == 7 { assert(tree_parent_ok(8, 7, 8, 8)); }
        else if j == 8 { assert(tree_parent_ok(8, 8, 8, 9)); } else if j == 9 { assert(tree_parent_ok(8, 9, 7, 9)); }
    } else if i == 9 {
        if j == 0 { assert(tree_parent_ok(9, 0, 9, 1)); } else if j == 1 { assert(tree_parent_ok(9, 1, 8, 1)); }
        else if j == 2 { assert(tree_parent_ok(9, 2, 9, 3)); } else if j == 3 { assert(tree_parent_ok(9, 3, 9, 4)); }
        else if j == 4 { assert(tree_parent_ok(9, 4, 9, 5)); } else if j == 5 { assert(tree_parent_ok(9, 5, 9, 6)); }
        else if j == 6 { assert(tree_parent_ok(9, 6, 9, 7)); } else if j == 7 { assert(tree_parent_ok(9, 7, 9, 8)); }
        else if j == 8 { assert(tree_parent_ok(9, 8, 8, 8)); } else if j == 9 { assert(tree_parent_ok(9, 9, 9, 8)); }
    }
}

/// Interior block of maze cell (i, j) is reached in `d`.
spec fn cell_reached(d: Seq<u32>, i: int, j: int) -> bool {
    dist_at(d, 2 * i + 1, 2 * j + 1) != UNREACHABLE
}

/// In a distance field, reaching one of two adjacent cells whose shared wall
/// is open reaches the other one too.
proof fn lemma_through_wall(d: Seq<u32>, tr: int, tc: int, i: int, j: int, i2: int, j2: int)
    requires
        is_distance_field(d, tr, tc),
        0 <= i < GRID_SIZE,
        0 <= j < GRID_SIZE,
        0 <= i2 < GRID_SIZE,
        0 <= j2 < GRID_SIZE,
        adjacent((i, j), (i2, j2)),
        !spec_is_solid(i + i2 + 1, j + j2 + 1),
        cell_reached(d, i, j),
    ensures
        cell_reached(d, i2, j2),
{
    let r = 2 * i + 1;
    let c = 2 * j + 1;
    let sr = i + i2 + 1;
    let sc = j + j2 + 1;
    let r2 = 2 * i2 + 1;
    let c2 = 2 * j2 + 1;
    assert(cell_ok(d, tr, tc, r, c));
    assert(spec_block_in_bounds(sr, sc));
    assert(cell_ok(d, tr, tc, sr, sc));
    assert(!spec_is_solid(r2, c2));
    if i2 == i + 1 {
        assert(edge_ok(d, r, c, r + 1, c));
        assert(edge_ok(d, sr, sc, sr + 1, sc));
    } else if i2 == i - 1 {
        assert(edge_ok(d, r, c, r - 1, c));
        assert(edge_ok(d, sr, sc, sr - 1, sc));
    } else if j2 == j + 1 {
        assert(edge_ok(d, r, c, r, c + 1));
        assert(edge_ok(d, sr, sc, sr, sc + 1));
    } else {
        assert(edge_ok(d, r, c, r, c - 1));
        assert(edge_ok(d, sr, sc, sr, sc - 1));
    }
}

proof fn lemma_cell_from_root(d: Seq<u32>, tr: int, tc: int, i: int, j: int)
    requires
        is_distance_field(d, tr, tc),
        0 <= i < GRID_SIZE,
        0 <= j < GRID_SIZE,
        cell_reached(d, 0, 0),
    ensures
        cell_reached(d, i, j),
    decreases cell_depth(i, j),
{
    if i != 0 || j != 0 {
        lemma_tree_parent(i, j);
        let (i2, j2) = choose|i2: int, j2: int| #[trigger] tree_parent_ok(i, j, i2, j2);
        lemma_cell_from_root(d, tr, tc, i2, j2);
        lemma_through_wall(d, tr, tc, i2, j2, i, j);
    }
}

proof fn lemma_root_from_cell(d: Seq<u32>, tr: int, tc: int, i: int, j: int)
    requires
        is_distance_field(d, tr, tc),
        0 <= i < GRID_SIZE,
        0 <= j < GRID_SIZE,
        cell_reached(d, i, j),
    ensures
        cell_reached(d, 0, 0),
    decreases cell_depth(i, j),
{
    if i != 0 || j != 0 {
        lemma_tree_parent(i, j);
        let (i2, j2) = choose|i2: int, j2: int| #[trigger] tree_parent_ok(i, j, i2, j2);
        lemma_through_wall(d, tr, tc, i, j, i2, j2);
        lemma_root_from_cell(d, tr, tc, i2, j2);
    }
}

/// The maze is fully connected: a breadth-first search from any open block
/// reaches every open block of the grid, so a walk over open blocks leads
/// from that block to every other open block.
pub proof fn lemma_maze_connected(d: Seq<u32>, tr: int, tc: int)
    requires
        is_distance_field(d, tr, tc),
    ensures
        forall|r: int, c: int|
            spec_block_in_bounds(r, c) && !spec_is_solid(r, c) ==> #[trigger] dist_at(d, r, c)
                != UNREACHABLE,
        forall|r: int, c: int|
            spec_block_in_bounds(r, c) && !spec_is_solid(r, c) ==> exists|w: Seq<(int, int)>|
                #[trigger] is_open_walk(w) && w[0] == (tr, tc) && w.last() == (r, c),
{
    // some cell interior is reached: the target itself, or one next to it
    assert(cell_ok(d, tr, tc, tr, tc));
    if tr % 2 == 1 && tc % 2 == 1 {
        lemma_root_from_cell(d, tr, tc, (tr - 1) / 2, (tc - 1) / 2);
    } else if tr % 2 == 1 {
        if tc == 0 || tc == BLOCK_SIZE - 1 {
            lemma_border_is_solid(tr, tc);
        }
        assert(edge_ok(d, tr, tc, tr, tc - 1));
        lemma_root_from_cell(d, tr, tc, (tr - 1) / 2, (tc - 2) / 2);
    } else {
        if tr == 0 || tr == BLOCK_SIZE - 1 {
            lemma_border_is_solid(tr, tc);
        }
        assert(edge_ok(d, tr, tc, tr - 1, tc));
        lemma_root_from_cell(d, tr, tc, (tr - 2) / 2, (tc - 1) / 2);
    }
    assert forall|r: int, c: int|
        spec_block_in_bounds(r, c) && !spec_is_solid(r, c) implies #[trigger] dist_at(d, r, c)
            != UNREACHABLE by {
        if r % 2 == 1 && c % 2 == 1 {
            lemma_cell_from_root(d, tr, tc, (r - 1) / 2, (c - 1) / 2);
        } else if r % 2 == 1 {
            if c == 0 || c == BLOCK_SIZE - 1 {
                lemma_border_is_solid(r, c);
            }
            lemma_cell_from_root(d, tr, tc, (r - 1) / 2, (c - 2) / 2);
            assert(cell_ok(d, tr, tc, r, c - 1));
            assert(edge_ok(d, r, c - 1, r, c));
        } else {
            if r == 0 || r == BLOCK_SIZE - 1 {
                lemma_border_is_solid(r, c);
            }
            lemma_cell_from_root(d, tr, tc, (r - 2) / 2, (c - 1) / 2);
            assert(cell_ok(d, tr, tc, r - 1, c));
            assert(edge_ok(d, r - 1, c, r, c));
        }
    }
    assert forall|r: int, c: int|
        spec_block_in_bounds(r, c) && !spec_is_solid(r, c) implies exists|w: Seq<(int, int)>|
            #[trigger] is_open_walk(w) && w[0] == (tr, tc) && w.last() == (r, c) by {
        assert(dist_at(d, r, c) != UNREACHABLE);
        let w = lemma_walk_to(d, tr, tc, r, c);
    }
}

} // verus!
