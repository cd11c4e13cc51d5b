//! Graph searches over a board's implicit grid graph: the vertices are the
//! board's cells and the edges exactly the single steps `can_move` allows,
//! so walls remove edges.  The searches answer shortest-distance and
//! goal-row reachability queries; both are exact, in both directions: a
//! returned distance is realised by a walk and no shorter walk exists, and
//! a negative answer means no walk at all.

use vstd::prelude::*;
use vstd::arithmetic::div_mod::lemma_fundamental_div_mod_converse;
use crate::board::{in_bounds, spec_can_move, Board, BoardView};
use crate::point::{dir_dx, dir_dy, Direction, Point};
use crate::pqueue::{pq_contents, pq_new, pq_pop, pq_push, Frontier};

verus! {

/// A searching companion for one board snapshot.
pub struct PathFinder {
    pub board: Board,
}

/// Whether `q` is exactly one legal step away from `p` on `bv`: `p` stands
/// on the board and a move from `p` in some direction, not blocked by any
/// wall, lands on `q`.
pub open spec fn edge(bv: BoardView, p: Point, q: Point) -> bool {
    &&& in_bounds(bv, p)
    &&& exists|d: Direction|
        #[trigger] spec_can_move(bv, p, d) && q.x == p.x + dir_dx(d) && q.y == p.y + dir_dy(d)
}

/// The cells of `s` follow one another by single legal steps.
pub open spec fn is_walk_seq(bv: BoardView, s: Seq<Point>) -> bool {
    forall|i: int| 0 <= i < s.len() - 1 ==> edge(bv, #[trigger] s[i], s[i + 1])
}

/// `s` is a walk from `from` to `to`: nonempty, linked by legal steps, with
/// the given endpoints.
pub open spec fn walk_connects(bv: BoardView, s: Seq<Point>, from: Point, to: Point) -> bool {
    &&& s.len() >= 1
    &&& s.first() == from
    &&& s.last() == to
    &&& is_walk_seq(bv, s)
}

/// There is a walk of exactly `n` legal steps from `from` to `to`.
pub open spec fn has_walk(bv: BoardView, from: Point, to: Point, n: nat) -> bool {
    exists|s: Seq<Point>| #[trigger] walk_connects(bv, s, from, to) && s.len() == n + 1
}

/// `to` can be reached from `from` in some number of steps.
pub open spec fn reachable(bv: BoardView, from: Point, to: Point) -> bool {
    exists|n: nat| has_walk(bv, from, to, n)
}

/// `n` is the length of a shortest walk from `from` to `to`.
pub open spec fn is_min_dist(bv: BoardView, from: Point, to: Point, n: nat) -> bool {
    &&& has_walk(bv, from, to, n)
    &&& forall|m: nat| m < n ==> !has_walk(bv, from, to, m)
}

/// Some cell of row `goal` can be reached from `from`.
pub open spec fn row_reachable(bv: BoardView, from: Point, goal: int) -> bool {
    exists|g: Point| in_bounds(bv, g) && g.y == goal && #[trigger] reachable(bv, from, g)
}

/// `d` is the least number of steps from `from` to any cell of row `goal`.
pub open spec fn is_min_row_dist(bv: BoardView, from: Point, goal: int, d: nat) -> bool {
    &&& exists|g: Point| in_bounds(bv, g) && g.y == goal && #[trigger] has_walk(bv, from, g, d)
    &&& forall|g: Point, m: nat|
        in_bounds(bv, g) && g.y == goal && #[trigger] has_walk(bv, from, g, m) ==> m >= d
}

/// Both endpoints of an edge stand on the board.
pub proof fn lemma_edge_in_bounds(bv: BoardView, p: Point, q: Point)
    requires
        edge(bv, p, q),
    ensures
        in_bounds(bv, p),
        in_bounds(bv, q),
{
    let d = choose|d: Direction|
        #[trigger] spec_can_move(bv, p, d) && q.x == p.x + dir_dx(d) && q.y == p.y + dir_dy(d);
    assert(spec_can_move(bv, p, d));
}

/// An edge can be walked in either direction: the candidate wall positions
/// of a step and of the step back are the same pair.
pub proof fn lemma_edge_symmetric(bv: BoardView, p: Point, q: Point)
    requires
        edge(bv, p, q),
    ensures
        edge(bv, q, p),
{
    let d = choose|d: Direction|
        #[trigger] spec_can_move(bv, p, d) && q.x == p.x + dir_dx(d) && q.y == p.y + dir_dy(d);
    lemma_edge_in_bounds(bv, p, q);
    match d {
        Direction::Up => {
            assert(spec_can_move(bv, q, Direction::Down) && p.x == q.x + dir_dx(Direction::Down)
                && p.y == q.y + dir_dy(Direction::Down));
        },
        Direction::Down => {
            assert(spec_can_move(bv, q, Direction::Up) && p.x == q.x + dir_dx(Direction::Up)
                && p.y == q.y + dir_dy(Direction::Up));
        },
        Direction::Left => {
            assert(spec_can_move(bv, q, Direction::Right) && p.x == q.x + dir_dx(Direction::Right)
                && p.y == q.y + dir_dy(Direction::Right));
        },
        Direction::Right => {
            assert(spec_can_move(bv, q, Direction::Left) && p.x == q.x + dir_dx(Direction::Left)
                && p.y == q.y + dir_dy(Direction::Left));
        },
    }
}

/// Edges are a property of the grid and the walls alone; the pawns play no
/// part in them.
pub proof fn lemma_edge_ignores_pawns(bv1: BoardView, bv2: BoardView, p: Point, q: Point)
    requires
        bv1.width == bv2.width,
        bv1.height == bv2.height,
        bv1.walls == bv2.walls,
        edge(bv1, p, q),
    ensures
        edge(bv2, p, q),
{
    let d = choose|d: Direction|
        #[trigger] spec_can_move(bv1, p, d) && q.x == p.x + dir_dx(d) && q.y == p.y + dir_dy(d);
    assert(spec_can_move(bv2, p, d) && q.x == p.x + dir_dx(d) && q.y == p.y + dir_dy(d));
}

/// The walk that stands still: every cell reaches itself in no steps.
pub proof fn lemma_walk_zero(bv: BoardView, p: Point)
    ensures
        has_walk(bv, p, p, 0),
{
    let s: Seq<Point> = seq![p];
    assert(walk_connects(bv, s, p, p) && s.len() == 0 + 1);
}

/// A walk followed by one more legal step is a walk one step longer.
pub proof fn lemma_walk_extend(bv: BoardView, from: Point, mid: Point, to: Point, n: nat)
    requires
        has_walk(bv, from, mid, n),
        edge(bv, mid, to),
    ensures
        has_walk(bv, from, to, n + 1),
{
    let s = choose|s: Seq<Point>| #[trigger] walk_connects(bv, s, from, mid) && s.len() == n + 1;
    let s2 = s.push(to);
    assert forall|i: int| 0 <= i < s2.len() - 1 implies edge(bv, #[trigger] s2[i], s2[i + 1]) by {
        if i < s.len() - 1 {
            assert(edge(bv, s[i], s[i + 1]));
        } else {
            assert(s2[i] == mid && s2[i + 1] == to);
        }
    }
    assert(walk_connects(bv, s2, from, to) && s2.len() == n + 1 + 1);
}

/// A walk of at least one step ends with a legal step out of a one-step
/// shorter walk.
pub proof fn lemma_walk_decompose(bv: BoardView, from: Point, to: Point, n: nat)
    requires
        has_walk(bv, from, to, n),
        n >= 1,
    ensures
        exists|mid: Point| #[trigger] has_walk(bv, from, mid, (n - 1) as nat) && edge(bv, mid, to),
{
    let s = choose|s: Seq<Point>| #[trigger] walk_connects(bv, s, from, to) && s.len() == n + 1;
    let t = s.drop_last();
    let mid = t.last();
    assert forall|i: int| 0 <= i < t.len() - 1 implies edge(bv, #[trigger] t[i], t[i + 1]) by {
        assert(edge(bv, s[i], s[i + 1]));
    }
    assert(walk_connects(bv, t, from, mid) && t.len() == (n - 1) + 1);
    assert(edge(bv, s[n - 1], s[n as int]));
    assert(has_walk(bv, from, mid, (n - 1) as nat) && edge(bv, mid, to));
}

/// A legal step prepended to a walk gives a walk one step longer.
pub proof fn lemma_walk_prepend(bv: BoardView, p: Point, q: Point, to: Point, n: nat)
    requires
        edge(bv, p, q),
        has_walk(bv, q, to, n),
    ensures
        has_walk(bv, p, to, n + 1),
{
    let s = choose|s: Seq<Point>| #[trigger] walk_connects(bv, s, q, to) && s.len() == n + 1;
    let s2 = seq![p] + s;
    assert(s2.len() == n + 2);
    assert(s2.last() == s.last());
    assert forall|i: int| 0 <= i < s2.len() - 1 implies edge(bv, #[trigger] s2[i], s2[i + 1]) by {
        if i == 0 {
            assert(s2[0] == p && s2[1] == s[0]);
        } else {
            assert(s2[i] == s[i - 1] && s2[i + 1] == s[i]);
            assert(edge(bv, s[i - 1], s[i]));
        }
    }
    assert(walk_connects(bv, s2, p, to) && s2.len() == (n + 1) + 1);
}

/// Walks do not see the pawns: two boards with the same dimensions and the
/// same walls carry exactly the same walks.
pub proof fn lemma_walk_ignores_pawns(
    bv1: BoardView,
    bv2: BoardView,
    from: Point,
    to: Point,
    n: nat,
)
    requires
        bv1.width == bv2.width,
        bv1.height == bv2.height,
        bv1.walls == bv2.walls,
        has_walk(bv1, from, to, n),
    ensures
        has_walk(bv2, from, to, n),
{
    let s = choose|s: Seq<Point>| #[trigger] walk_connects(bv1, s, from, to) && s.len() == n + 1;
    assert forall|i: int| 0 <= i < s.len() - 1 implies edge(bv2, #[trigger] s[i], s[i + 1]) by {
        assert(edge(bv1, s[i], s[i + 1]));
        lemma_edge_ignores_pawns(bv1, bv2, s[i], s[i + 1]);
    }
    assert(walk_connects(bv2, s, from, to) && s.len() == n + 1);
}

/// The row-major index of cell `p` on a grid `bv.width` columns wide.
pub open spec fn cell_index(bv: BoardView, p: Point) -> int {
    p.y * bv.width + p.x
}

/// The cell whose row-major index is `i`.
pub open spec fn index_cell(bv: BoardView, i: int) -> Point {
    Point { x: (i % bv.width) as i32, y: (i / bv.width) as i32 }
}

/// Indexing maps each cell of the board into `[0, width * height)` and
/// back to itself.
pub proof fn lemma_cell_index_bijective(bv: BoardView, p: Point)
    requires
        in_bounds(bv, p),
    ensures
        0 <= cell_index(bv, p) < bv.width * bv.height,
        index_cell(bv, cell_index(bv, p)) == p,
{
    let w = bv.width;
    let h = bv.height;
    let i = p.y * w + p.x;
    assert(0 <= i && i + 1 <= w * h) by (nonlinear_arith)
        requires
            0 <= p.x < w,
            0 <= p.y < h,
            i == p.y * w + p.x,
    ;
    lemma_fundamental_div_mod_converse(i, w, p.y as int, p.x as int);
    assert(index_cell(bv, i) == p);
}

/// Every index below `width * height` names a cell of the board, and the
/// two mappings invert each other.
pub proof fn lemma_index_cell_in_bounds(bv: BoardView, i: int)
    requires
        bv.width >= 1,
        bv.width <= i32::MAX,
        bv.height <= i32::MAX,
        0 <= i < bv.width * bv.height,
    ensures
        in_bounds(bv, index_cell(bv, i)),
        cell_index(bv, index_cell(bv, i)) == i,
{
    let w = bv.width;
    let h = bv.height;
    let x = i % w;
    let y = i / w;
    vstd::arithmetic::div_mod::lemma_fundamental_div_mod(i, w);
    vstd::arithmetic::div_mod::lemma_mod_bound(i, w);
    assert(y >= 0) by (nonlinear_arith)
        requires
            i >= 0,
            w >= 1,
            i == w * y + i % w,
            0 <= i % w < w,
    ;
    assert(y < h) by (nonlinear_arith)
        requires
            i < w * h,
            w >= 1,
            i == w * y + x,
            0 <= x < w,
    ;
    assert(in_bounds(bv, index_cell(bv, i)));
    assert(cell_index(bv, index_cell(bv, i)) == y * w + x);
    assert(y * w + x == i) by (nonlinear_arith)
        requires
            i == w * y + x,
    ;
}

/// Number of recorded entries in a distance map.
pub open spec fn count_some(s: Seq<Option<usize>>) -> nat
    decreases s.len(),
{
    if s.len() == 0 {
        0
    } else {
        count_some(s.drop_last()) + (if s.last() is Some {
            1nat
        } else {
            0nat
        })
    }
}

/// A map cannot record more entries than it has cells.
proof fn lemma_count_some_le_len(s: Seq<Option<usize>>)
    ensures
        count_some(s) <= s.len(),
    decreases s.len(),
{
    if s.len() > 0 {
        lemma_count_some_le_len(s.drop_last());
    }
}

/// How one update moves the count of recorded entries.
proof fn lemma_count_some_update(s: Seq<Option<usize>>, i: int, v: Option<usize>)
    requires
        0 <= i < s.len(),
    ensures
        count_some(s.update(i, v)) + (if s[i] is Some {
            1nat
        } else {
            0nat
        }) == count_some(s) + (if v is Some {
            1nat
        } else {
            0nat
        }),
    decreases s.len(),
{
    let s2 = s.update(i, v);
    if i == s.len() - 1 {
        assert(s2.drop_last() =~= s.drop_last());
    } else {
        assert(s2.drop_last() =~= s.drop_last().update(i, v));
        lemma_count_some_update(s.drop_last(), i, v);
        assert(s.drop_last()[i] == s[i]);
        assert(s2.last() == s.last());
    }
}

/// A map with an unrecorded cell has strictly fewer entries than cells.
proof fn lemma_count_some_slack(s: Seq<Option<usize>>, i: int)
    requires
        0 <= i < s.len(),
        s[i] is None,
    ensures
        count_some(s) < s.len(),
{
    lemma_count_some_update(s, i, Some(0usize));
    lemma_count_some_le_len(s.update(i, Some(0usize)));
}

/// The weight of one entry towards the relaxation measure: an unrecorded
/// cell weighs `top`, a recorded one its distance.
pub open spec fn rank_of(v: Option<usize>, top: nat) -> nat {
    match v {
        Some(d) => d as nat,
        None => top,
    }
}

/// The relaxation measure: total weight of the map.  Every improvement of
/// an entry makes it strictly smaller, which bounds the search.
pub open spec fn sum_rank(s: Seq<Option<usize>>, top: nat) -> nat
    decreases s.len(),
{
    if s.len() == 0 {
        0
    } else {
        sum_rank(s.drop_last(), top) + rank_of(s.last(), top)
    }
}

/// How one update moves the relaxation measure.
proof fn lemma_sum_rank_update(s: Seq<Option<usize>>, top: nat, i: int, v: Option<usize>)
    requires
        0 <= i < s.len(),
    ensures
        sum_rank(s.update(i, v), top) + rank_of(s[i], top) == sum_rank(s, top) + rank_of(v, top),
    decreases s.len(),
{
    let s2 = s.update(i, v);
    if i == s.len() - 1 {
        assert(s2.drop_last() =~= s.drop_last());
    } else {
        assert(s2.drop_last() =~= s.drop_last().update(i, v));
        lemma_sum_rank_update(s.drop_last(), top, i, v);
        assert(s.drop_last()[i] == s[i]);
        assert(s2.last() == s.last());
    }
}

/// Index of the cell one step in `d` from `p`.
pub open spec fn step_index(bv: BoardView, p: Point, d: Direction) -> int {
    (p.y + dir_dy(d)) * bv.width + (p.x + dir_dx(d))
}

/// The soundness invariant of the relaxation: one entry per cell, the
/// source recorded as zero, every recorded distance realised by a walk from
/// the source, and every recorded distance below the number of recorded
/// cells, which keeps the arithmetic in bounds.
pub open spec fn dm_inv(bv: BoardView, from: Point, dm: Seq<Option<usize>>, count: nat) -> bool {
    &&& 1 <= bv.width <= i32::MAX
    &&& 1 <= bv.height <= i32::MAX
    &&& dm.len() == bv.width * bv.height
    &&& in_bounds(bv, from)
    &&& dm[cell_index(bv, from)] == Some(0usize)
    &&& count == count_some(dm)
    &&& forall|i: int|
        0 <= i < dm.len() ==> ((#[trigger] dm[i]) matches Some(d) ==> has_walk(
            bv,
            from,
            index_cell(bv, i),
            d as nat,
        ) && (d as nat) < count)
}

/// No edge of the board can improve the map: whenever a recorded cell has a
/// legal step to a neighbour, the neighbour is recorded at most one step
/// further away.
pub open spec fn closed_dm(bv: BoardView, dm: Seq<Option<usize>>) -> bool {
    forall|p: Point, d: Direction|
        (in_bounds(bv, p) && dm[cell_index(bv, p)] is Some && #[trigger] spec_can_move(bv, p, d))
            ==> (dm[step_index(bv, p, d)] is Some
                && dm[step_index(bv, p, d)].unwrap() <= dm[cell_index(bv, p)].unwrap() + 1)
}

/// In a closed map that records the source at zero, every walk bounds the
/// entry of its endpoint: the map can only under-approximate walk lengths.
proof fn lemma_walk_gives_bound(
    bv: BoardView,
    from: Point,
    dm: Seq<Option<usize>>,
    to: Point,
    n: nat,
)
    requires
        bv.width >= 1,
        dm.len() == bv.width * bv.height,
        in_bounds(bv, from),
        dm[cell_index(bv, from)] == Some(0usize),
        closed_dm(bv, dm),
        has_walk(bv, from, to, n),
    ensures
        dm[cell_index(bv, to)] is Some,
        dm[cell_index(bv, to)].unwrap() <= n,
    decreases n,
{
    if n == 0 {
        let s = choose|s: Seq<Point>| #[trigger] walk_connects(bv, s, from, to) && s.len() == 1;
        assert(to == from);
    } else {
        lemma_walk_decompose(bv, from, to, n);
        let mid = choose|mid: Point|
            #[trigger] has_walk(bv, from, mid, (n - 1) as nat) && edge(bv, mid, to);
        lemma_walk_gives_bound(bv, from, dm, mid, (n - 1) as nat);
        lemma_edge_in_bounds(bv, mid, to);
        let d = choose|d: Direction|
            #[trigger] spec_can_move(bv, mid, d) && to.x == mid.x + dir_dx(d) && to.y == mid.y
                + dir_dy(d);
        assert(step_index(bv, mid, d) == cell_index(bv, to));
        assert(dm[cell_index(bv, to)] is Some
            && dm[cell_index(bv, to)].unwrap() <= dm[cell_index(bv, mid)].unwrap() + 1);
    }
}

/// Every recorded entry is the exact shortest distance to its cell, and
/// every unrecorded cell is unreachable.
pub open spec fn dist_exact(bv: BoardView, from: Point, dm: Seq<Option<usize>>) -> bool {
    forall|i: int|
        0 <= i < dm.len() ==> match #[trigger] dm[i] {
            Some(d) => is_min_dist(bv, from, index_cell(bv, i), d as nat),
            None => !reachable(bv, from, index_cell(bv, i)),
        }
}

/// A sound map that has reached closure is exact.
proof fn lemma_dm_exact(bv: BoardView, from: Point, dm: Seq<Option<usize>>, count: nat)
    requires
        dm_inv(bv, from, dm, count),
        closed_dm(bv, dm),
    ensures
        dist_exact(bv, from, dm),
{
    assert forall|i: int| 0 <= i < dm.len() implies match #[trigger] dm[i] {
        Some(d) => is_min_dist(bv, from, index_cell(bv, i), d as nat),
        None => !reachable(bv, from, index_cell(bv, i)),
    } by {
        lemma_index_cell_in_bounds(bv, i);
        let c = index_cell(bv, i);
        match dm[i] {
            Some(d) => {
                assert(has_walk(bv, from, c, d as nat));
                assert forall|m: nat| m < d as nat implies !has_walk(bv, from, c, m) by {
                    if has_walk(bv, from, c, m) {
                        lemma_walk_gives_bound(bv, from, dm, c, m);
                    }
                }
            },
            None => {
                if reachable(bv, from, c) {
                    let n = choose|n: nat| has_walk(bv, from, c, n);
                    lemma_walk_gives_bound(bv, from, dm, c, n);
                }
            },
        }
    }
}

/// Direction `d` out of cell `p` cannot improve the map.
pub open spec fn relaxed_dir(bv: BoardView, dm: Seq<Option<usize>>, p: Point, d: Direction) -> bool {
    (dm[cell_index(bv, p)] is Some && spec_can_move(bv, p, d)) ==> (dm[step_index(bv, p, d)] is Some
        && dm[step_index(bv, p, d)].unwrap() <= dm[cell_index(bv, p)].unwrap() + 1)
}

/// A map of nothing but unrecorded cells has no entries.
proof fn lemma_count_some_all_none(s: Seq<Option<usize>>)
    requires
        forall|j: int| 0 <= j < s.len() ==> s[j] is None,
    ensures
        count_some(s) == 0,
    decreases s.len(),
{
    if s.len() > 0 {
        lemma_count_some_all_none(s.drop_last());
    }
}

/// The Manhattan distance between two cells: the number of steps a walk
/// between them needs on a board without walls.
pub open spec fn spec_manhattan(a: Point, b: Point) -> nat {
    ((if a.x < b.x {
        b.x - a.x
    } else {
        a.x - b.x
    }) + (if a.y < b.y {
        b.y - a.y
    } else {
        a.y - b.y
    })) as nat
}

/// Computes the Manhattan distance between two cells.
fn distance_if_no_walls(a: &Point, b: &Point) -> (r: u64)
    ensures
        r == spec_manhattan(*a, *b),
{
    let dx: i64 = if a.x < b.x {
        b.x as i64 - a.x as i64
    } else {
        a.x as i64 - b.x as i64
    };
    let dy: i64 = if a.y < b.y {
        b.y as i64 - a.y as i64
    } else {
        a.y as i64 - b.y as i64
    };
    (dx + dy) as u64
}

/// Computes the row-major index of a cell of the board.
fn cell_to_index(b: &Board, p: Point) -> (i: usize)
    requires
        in_bounds(b@, p),
        b@.width * b@.height <= usize::MAX,
    ensures
        i == cell_index(b@, p),
        i < b@.width * b@.height,
{
    let w = b.get_width();
    proof {
        lemma_cell_index_bijective(b@, p);
        assert((p.y as int) * (w as int) + p.x <= cell_index(b@, p));
    }
    (p.y as usize) * (w as usize) + (p.x as usize)
}

/// Recovers the cell a row-major index names.
fn index_to_cell(b: &Board, i: usize) -> (p: Point)
    requires
        b@.width >= 1,
        i < b@.width * b@.height,
    ensures
        p == index_cell(b@, i as int),
        in_bounds(b@, p),
{
    let w = b.get_width();
    let h = b.get_height();
    proof {
        lemma_index_cell_in_bounds(b@, i as int);
    }
    let x = i % (w as usize);
    let y = i / (w as usize);
    Point { x: x as i32, y: y as i32 }
}

/// Recording an improvement keeps the map sound: the new entry is realised
/// by a walk, every other entry is untouched, and the measure drops.
proof fn lemma_dm_record(
    bv: BoardView,
    from: Point,
    dm: Seq<Option<usize>>,
    count: nat,
    vi: int,
    nd: usize,
)
    requires
        dm_inv(bv, from, dm, count),
        0 <= vi < dm.len(),
        has_walk(bv, from, index_cell(bv, vi), nd as nat),
        dm[vi] is Some ==> nd < dm[vi].unwrap(),
        dm[vi] is None ==> nd < count + 1,
    ensures
        dm_inv(
            bv,
            from,
            dm.update(vi, Some(nd)),
            count + (if dm[vi] is None {
                1nat
            } else {
                0nat
            }),
        ),
        sum_rank(dm.update(vi, Some(nd)), dm.len() as nat) < sum_rank(dm, dm.len() as nat),
        forall|i: int|
            0 <= i < dm.len() ==> ((#[trigger] dm[i]) is Some ==> dm.update(vi, Some(nd))[i]
                is Some && dm.update(vi, Some(nd))[i].unwrap() <= dm[i].unwrap()),
{
    lemma_cell_index_bijective(bv, from);
    let upd = dm.update(vi, Some(nd));
    let count2 = count + (if dm[vi] is None {
        1nat
    } else {
        0nat
    });
    if dm[vi] is None {
        lemma_count_some_slack(dm, vi);
    }
    lemma_count_some_update(dm, vi, Some(nd));
    lemma_sum_rank_update(dm, dm.len() as nat, vi, Some(nd));
    assert forall|i: int|
        0 <= i < upd.len() implies ((#[trigger] upd[i]) matches Some(dd) ==> has_walk(
        bv,
        from,
        index_cell(bv, i),
        dd as nat,
    ) && (dd as nat) < count2) by {
        if i != vi {
            assert(upd[i] == dm[i]);
        }
    }
    if vi == cell_index(bv, from) {
        assert(dm[vi] == Some(0usize));
        assert(false);
    }
    assert(upd[cell_index(bv, from)] == dm[cell_index(bv, from)]);
}

/// Relaxes the single edge leaving cell `u` in direction `d`: when the step
/// is legal and improves the destination's entry, records the improvement
/// and returns the destination's index.
#[verifier::rlimit(80)]
fn relax_step(
    b: &Board,
    dm: &mut Vec<Option<usize>>,
    count: &mut usize,
    u: Point,
    d: Direction,
    from: Ghost<Point>,
) -> (r: Option<usize>)
    requires
        dm_inv(b@, from@, old(dm)@, *old(count) as nat),
        in_bounds(b@, u),
        old(dm)@[cell_index(b@, u)] is Some,
    ensures
        dm_inv(b@, from@, final(dm)@, *final(count) as nat),
        final(dm)@.len() == old(dm)@.len(),
        sum_rank(final(dm)@, old(dm)@.len() as nat) <= sum_rank(old(dm)@, old(dm)@.len() as nat),
        forall|i: int|
            0 <= i < old(dm)@.len() ==> ((#[trigger] old(dm)@[i]) is Some ==> final(dm)@[i] is Some
                && final(dm)@[i].unwrap() <= old(dm)@[i].unwrap()),
        match r {
            Some(vi) => vi < final(dm)@.len() && final(dm)@[vi as int] is Some && sum_rank(
                final(dm)@,
                old(dm)@.len() as nat,
            ) < sum_rank(old(dm)@, old(dm)@.len() as nat),
            None => final(dm)@ == old(dm)@ && *final(count) == *old(count) && relaxed_dir(
                b@,
                old(dm)@,
                u,
                d,
            ),
        },
{
    let ghost bv = b@;
    let n = dm.len();
    proof {
        lemma_cell_index_bijective(bv, u);
        lemma_count_some_le_len(dm@);
        assert(n as int == bv.width * bv.height);
    }
    let ui = cell_to_index(b, u);
    let du = dm[ui].unwrap();
    proof {
        assert((du as nat) < *count as nat);
        assert(*count <= n);
    }
    if !b.can_move_from(u, d) {
        return None;
    }
    let v = u.shift_direction(d);
    proof {
        assert(in_bounds(bv, v));
        lemma_cell_index_bijective(bv, v);
        assert(cell_index(bv, v) == step_index(bv, u, d));
    }
    let vi = cell_to_index(b, v);
    let improves: bool = match dm[vi] {
        Some(old_v) => old_v > du + 1,
        None => true,
    };
    if !improves {
        return None;
    }
    let was_none = dm[vi].is_none();
    proof {
        if dm@[vi as int] is None {
            lemma_count_some_slack(dm@, vi as int);
        }
        assert(edge(bv, u, v)) by {
            assert(spec_can_move(bv, u, d) && v.x == u.x + dir_dx(d) && v.y == u.y + dir_dy(d));
        }
        lemma_walk_extend(bv, from@, u, v, du as nat);
        lemma_dm_record(bv, from@, dm@, *count as nat, vi as int, (du + 1) as usize);
    }
    dm[vi] = Some(du + 1);
    if was_none {
        *count = *count + 1;
    }
    Some(vi)
}

/// One full relaxation sweep over every cell and direction.  When it
/// changes nothing, the map has reached closure.
#[verifier::rlimit(100)]
fn relax_sweep(
    b: &Board,
    dm: &mut Vec<Option<usize>>,
    count: &mut usize,
    from: Ghost<Point>,
) -> (changed: bool)
    requires
        dm_inv(b@, from@, old(dm)@, *old(count) as nat),
    ensures
        dm_inv(b@, from@, final(dm)@, *final(count) as nat),
        final(dm)@.len() == old(dm)@.len(),
        changed ==> sum_rank(final(dm)@, old(dm)@.len() as nat) < sum_rank(
            old(dm)@,
            old(dm)@.len() as nat,
        ),
        !changed ==> final(dm)@ == old(dm)@ && closed_dm(b@, final(dm)@),
{
    let ghost bv = b@;
    let ghost start = old(dm)@;
    let ghost top = old(dm)@.len() as nat;
    let n = dm.len();
    let mut changed = false;
    for i in 0..n
        invariant
            dm_inv(bv, from@, dm@, *count as nat),
            bv == b@,
            dm@.len() == n as int,
            start.len() == n as int,
            top == n as nat,
            changed ==> sum_rank(dm@, top) < sum_rank(start, top),
            !changed ==> dm@ == start && forall|j: int, d: Direction|
                0 <= j < i ==> #[trigger] relaxed_dir(bv, dm@, index_cell(bv, j), d),
    {
        if dm[i].is_some() {
            let u = index_to_cell(b, i);
            proof {
                lemma_index_cell_in_bounds(bv, i as int);
            }
            let r0 = relax_step(b, dm, count, u, Direction::Up, from);
            let r1 = relax_step(b, dm, count, u, Direction::Right, from);
            let r2 = relax_step(b, dm, count, u, Direction::Down, from);
            let r3 = relax_step(b, dm, count, u, Direction::Left, from);
            if r0.is_some() || r1.is_some() || r2.is_some() || r3.is_some() {
                changed = true;
            }
            proof {
                if !changed {
                    assert forall|j: int, d: Direction| 0 <= j < i + 1 implies #[trigger]
                        relaxed_dir(bv, dm@, index_cell(bv, j), d) by {
                        if j == i as int {
                            match d {
                                Direction::Up => assert(relaxed_dir(bv, dm@, u, d)),
                                Direction::Right => assert(relaxed_dir(bv, dm@, u, d)),
                                Direction::Down => assert(relaxed_dir(bv, dm@, u, d)),
                                Direction::Left => assert(relaxed_dir(bv, dm@, u, d)),
                            }
                        }
                    }
                }
            }
        } else {
            proof {
                if !changed {
                    assert forall|j: int, d: Direction| 0 <= j < i + 1 implies #[trigger]
                        relaxed_dir(bv, dm@, index_cell(bv, j), d) by {
                        if j == i as int {
                            lemma_index_cell_in_bounds(bv, i as int);
                            assert(dm@[cell_index(bv, index_cell(bv, j))] is None);
                        }
                    }
                }
            }
        }
    }
    proof {
        if !changed {
            assert forall|p: Point, d: Direction|
                (in_bounds(bv, p) && dm@[cell_index(bv, p)] is Some && #[trigger] spec_can_move(
                    bv,
                    p,
                    d,
                )) implies (dm@[step_index(bv, p, d)] is Some && dm@[step_index(bv, p, d)].unwrap()
                <= dm@[cell_index(bv, p)].unwrap() + 1) by {
                lemma_cell_index_bijective(bv, p);
                assert(relaxed_dir(bv, dm@, index_cell(bv, cell_index(bv, p)), d));
            }
        }
    }
    changed
}

/// Computes, for every cell of the board, the exact shortest walk length
/// from `from`, or records nothing for a cell no walk reaches.  A
/// best-first pass over a priority queue, guided by the Manhattan distance
/// towards `hint` on top of the accumulated cost, does the work at run
/// time; relaxation sweeps then establish that the map is a fixpoint, which
/// is what the exactness proof rests on.
fn distance_map(b: &Board, from: Point, hint: Point) -> (dm: Vec<Option<usize>>)
    requires
        in_bounds(b@, from),
        b@.width * b@.height <= usize::MAX,
    ensures
        dm@.len() == b@.width * b@.height,
        dist_exact(b@, from, dm@),
{
    let ghost bv = b@;
    let w = b.get_width();
    let h = b.get_height();
    proof {
        assert((w as int) * (h as int) == bv.width * bv.height);
    }
    let n: usize = (w as usize) * (h as usize);
    let mut dm: Vec<Option<usize>> = Vec::new();
    for k in 0..n
        invariant
            dm@.len() == k as int,
            forall|j: int| 0 <= j < dm@.len() ==> dm@[j] is None,
    {
        dm.push(None);
    }
    let fi = cell_to_index(b, from);
    proof {
        lemma_count_some_all_none(dm@);
        lemma_count_some_update(dm@, fi as int, Some(0usize));
        lemma_walk_zero(bv, from);
        lemma_cell_index_bijective(bv, from);
    }
    dm[fi] = Some(0);
    let mut count: usize = 1;
    proof {
        assert forall|i: int|
            0 <= i < dm@.len() implies ((#[trigger] dm@[i]) matches Some(d) ==> has_walk(
            bv,
            from,
            index_cell(bv, i),
            d as nat,
        ) && (d as nat) < 1nat) by {
            if i == fi as int {
                assert(index_cell(bv, i) == from);
            }
        }
        assert(dm_inv(bv, from, dm@, count as nat));
    }
    let mut queue = pq_new();
    proof {
        assert(pq_contents(queue).dom() =~= Set::<u64>::empty());
        assert(pq_contents(queue).dom().finite());
    }
    let h0 = distance_if_no_walls(&from, &hint);
    pq_push(&mut queue, fi as u64, u128::MAX - (h0 as u128));
    proof {
        vstd::set::axiom_set_insert_finite(Set::<u64>::empty(), fi as u64);
        assert(pq_contents(queue).dom() =~= Set::<u64>::empty().insert(fi as u64));
    }
    loop
        invariant
            dm_inv(bv, from, dm@, count as nat),
            bv == b@,
            dm@.len() == n as int,
            pq_contents(queue).dom().finite(),
        ensures
            dm_inv(bv, from, dm@, count as nat),
            dm@.len() == n as int,
        decreases sum_rank(dm@, n as nat), pq_contents(queue).dom().len(),
    {
        let ghost qpre = pq_contents(queue);
        let popped = pq_pop(&mut queue);
        match popped {
            None => {
                break;
            },
            Some(pair) => {
                proof {
                    vstd::set::axiom_set_remove_finite(qpre.dom(), pair.0);
                    vstd::set::axiom_set_remove_len(qpre.dom(), pair.0);
                    assert(pq_contents(queue).dom() =~= qpre.dom().remove(pair.0));
                }
                let item = pair.0;
                if item < n as u64 {
                    let ui = item as usize;
                    if dm[ui].is_some() {
                        let u = index_to_cell(b, ui);
                        proof {
                            lemma_index_cell_in_bounds(bv, ui as int);
                        }
                        let r0 = relax_step(b, &mut dm, &mut count, u, Direction::Up, Ghost(from));
                        if let Some(vi) = r0 {
                            push_frontier(b, &mut queue, &dm, vi, &hint);
                        }
                        let r1 = relax_step(b, &mut dm, &mut count, u, Direction::Right, Ghost(from));
                        if let Some(vi) = r1 {
                            push_frontier(b, &mut queue, &dm, vi, &hint);
                        }
                        let r2 = relax_step(b, &mut dm, &mut count, u, Direction::Down, Ghost(from));
                        if let Some(vi) = r2 {
                            push_frontier(b, &mut queue, &dm, vi, &hint);
                        }
                        let r3 = relax_step(b, &mut dm, &mut count, u, Direction::Left, Ghost(from));
                        if let Some(vi) = r3 {
                            push_frontier(b, &mut queue, &dm, vi, &hint);
                        }
                    }
                }
            },
        }
    }
    loop
        invariant
            dm_inv(bv, from, dm@, count as nat),
            bv == b@,
            dm@.len() == n as int,
        ensures
            dm_inv(bv, from, dm@, count as nat),
            dm@.len() == n as int,
            closed_dm(bv, dm@),
        decreases sum_rank(dm@, n as nat),
    {
        let changed = relax_sweep(b, &mut dm, &mut count, Ghost(from));
        if !changed {
            break;
        }
    }
    proof {
        lemma_dm_exact(bv, from, dm@, count as nat);
    }
    dm
}

/// Queues a freshly improved cell, at a priority that prefers small
/// accumulated cost plus remaining Manhattan distance to the hint.
fn push_frontier(
    b: &Board,
    queue: &mut Frontier,
    dm: &Vec<Option<usize>>,
    vi: usize,
    hint: &Point,
)
    requires
        pq_contents(*old(queue)).dom().finite(),
        vi < dm@.len(),
        dm@[vi as int] is Some,
        dm@.len() == b@.width * b@.height,
        b@.width >= 1,
    ensures
        pq_contents(*final(queue)).dom().finite(),
{
    let ghost qpre = pq_contents(*queue);
    let v = index_to_cell(b, vi);
    let dv = dm[vi].unwrap();
    let f: u128 = dv as u128 + distance_if_no_walls(&v, hint) as u128;
    pq_push(queue, vi as u64, u128::MAX - f);
    proof {
        vstd::set::axiom_set_insert_finite(qpre.dom(), vi as u64);
        assert(pq_contents(*queue).dom() =~= qpre.dom().insert(vi as u64));
    }
}

/// Shortest number of steps from `from` to `to` over the board's grid
/// graph, or `None` when walls cut every route.
pub fn shortest_distance(board: &Board, from: &Point, to: &Point) -> (r: Option<usize>)
    requires
        in_bounds(board@, *from),
        in_bounds(board@, *to),
        board@.width * board@.height <= usize::MAX,
    ensures
        match r {
            Some(d) => is_min_dist(board@, *from, *to, d as nat),
            None => !reachable(board@, *from, *to),
        },
{
    let dm = distance_map(board, *from, *to);
    let ti = cell_to_index(board, *to);
    proof {
        lemma_cell_index_bijective(board@, *to);
        assert(dm@[ti as int] == dm@[cell_index(board@, *to)]);
    }
    dm[ti]
}

/// Least entry of the goal row in the distance map of `from`.
fn row_min_distance(b: &Board, from: Point, goal: i32) -> (r: Option<usize>)
    requires
        in_bounds(b@, from),
        b@.width * b@.height <= usize::MAX,
    ensures
        match r {
            Some(d) => is_min_row_dist(b@, from, goal as int, d as nat),
            None => !row_reachable(b@, from, goal as int),
        },
{
    let ghost bv = b@;
    let w = b.get_width();
    let h = b.get_height();
    if goal < 0 || goal >= h {
        proof {
            assert forall|g: Point|
                !(in_bounds(bv, g) && g.y == goal as int && #[trigger] reachable(
                    bv,
                    from,
                    g,
                )) by {}
        }
        return None;
    }
    let hint = Point { x: from.x, y: goal };
    let dm = distance_map(b, from, hint);
    proof {
        lemma_cell_index_bijective(bv, hint);
        assert((goal as int) * (w as int) + (w as int) <= bv.width * bv.height)
            by (nonlinear_arith)
            requires
                0 <= (goal as int),
                (goal as int) < bv.height,
                bv.width == w as int,
                w >= 1,
        ;
    }
    let base: usize = (goal as usize) * (w as usize);
    let mut best: Option<usize> = None;
    let wu = w as usize;
    for x in 0..wu
        invariant
            bv == b@,
            1 <= w,
            wu == w as int,
            bv.width == w as int,
            bv.height == h as int,
            0 <= goal < h,
            base == (goal as int) * (w as int),
            base + wu <= dm@.len(),
            dm@.len() <= usize::MAX,
            dm@.len() == bv.width * bv.height,
            dist_exact(bv, from, dm@),
            match best {
                Some(bd) => {
                    &&& exists|j: int| base <= j < base + x && #[trigger] dm@[j] == Some(bd)
                    &&& forall|j: int|
                        base <= j < base + x ==> ((#[trigger] dm@[j]) matches Some(v) ==> v >= bd)
                },
                None => forall|j: int| base <= j < base + x ==> (#[trigger] dm@[j]) is None,
            },
    {
        let entry = dm[base + x];
        match entry {
            Some(v) => {
                let better: bool = match best {
                    Some(bd) => v < bd,
                    None => true,
                };
                if better {
                    best = Some(v);
                }
            },
            None => {},
        }
        proof {
            match best {
                Some(bd) => {
                    assert(exists|j: int| base <= j < base + (x + 1) && #[trigger] dm@[j] == Some(
                        bd,
                    ));
                },
                None => {},
            }
        }
    }
    proof {
        match best {
            Some(bd) => {
                let j0 = choose|j: int| base <= j < base + wu && #[trigger] dm@[j] == Some(bd);
                let g0 = Point { x: (j0 - base) as i32, y: goal };
                lemma_cell_index_bijective(bv, g0);
                assert(cell_index(bv, g0) == j0);
                assert(dm@[cell_index(bv, g0)] == Some(bd));
                assert(is_min_dist(bv, from, g0, bd as nat));
                assert(in_bounds(bv, g0) && g0.y == goal as int && has_walk(
                    bv,
                    from,
                    g0,
                    bd as nat,
                ));
                assert forall|g: Point, m: nat|
                    in_bounds(bv, g) && g.y == goal as int && #[trigger] has_walk(
                        bv,
                        from,
                        g,
                        m,
                    ) implies m >= bd as nat by {
                    lemma_cell_index_bijective(bv, g);
                    assert(cell_index(bv, g) == base + g.x);
                    match dm@[base + g.x] {
                        Some(v) => {
                            assert(is_min_dist(bv, from, g, v as nat));
                            assert(v >= bd);
                        },
                        None => {
                            assert(!reachable(bv, from, g));
                            assert(has_walk(bv, from, g, m));
                        },
                    }
                }
            },
            None => {
                if row_reachable(bv, from, goal as int) {
                    let g = choose|g: Point|
                        in_bounds(bv, g) && g.y == goal as int && #[trigger] reachable(
                            bv,
                            from,
                            g,
                        );
                    lemma_cell_index_bijective(bv, g);
                    assert(cell_index(bv, g) == base + g.x);
                    assert(dm@[base + g.x] is None);
                    assert(!reachable(bv, from, g));
                }
            },
        }
    }
    best
}

/// Whether any cell of row `goal` can be reached from `from` on this
/// board: the reachability query behind the blockade rule.
pub fn is_path(board: &Board, from: &Point, goal: i32) -> (r: bool)
    requires
        in_bounds(board@, *from),
        board@.width * board@.height <= usize::MAX,
    ensures
        r == row_reachable(board@, *from, goal as int),
{
    let ghost bv = board@;
    let d = row_min_distance(board, *from, goal);
    match d {
        Some(dist) => {
            proof {
                let g = choose|g: Point|
                    in_bounds(bv, g) && g.y == goal as int && #[trigger] has_walk(
                        bv,
                        *from,
                        g,
                        dist as nat,
                    );
                assert(reachable(bv, *from, g));
            }
            true
        },
        None => false,
    }
}

impl PathFinder {
    /// Shortest number of steps from `from` to the board's row `goal`, or
    /// `None` when no path to that row remains.
    pub fn distance_to_goal(&self, from: Point, goal: i32) -> (r: Option<usize>)
        requires
            in_bounds(self.board@, from),
            self.board@.width * self.board@.height <= usize::MAX,
        ensures
            match r {
                Some(d) => is_min_row_dist(self.board@, from, goal as int, d as nat),
                None => !row_reachable(self.board@, from, goal as int),
            },
    {
        row_min_distance(&self.board, from, goal)
    }
}

/// On a board without walls, every step that stays on the grid is legal,
/// so some walk realises the Manhattan distance.
proof fn lemma_wall_free_walk(bv: BoardView, a: Point, b: Point)
    requires
        bv.walls.len() == 0,
        in_bounds(bv, a),
        in_bounds(bv, b),
    ensures
        has_walk(bv, a, b, spec_manhattan(a, b)),
    decreases spec_manhattan(a, b),
{
    if a == b {
        lemma_walk_zero(bv, a);
    } else if a.x != b.x {
        if b.x > a.x {
            let mid = Point { x: (b.x - 1) as i32, y: b.y };
            lemma_wall_free_walk(bv, a, mid);
            assert(edge(bv, mid, b)) by {
                assert(spec_can_move(bv, mid, Direction::Right) && b.x == mid.x + dir_dx(
                    Direction::Right,
                ) && b.y == mid.y + dir_dy(Direction::Right));
            }
            lemma_walk_extend(bv, a, mid, b, spec_manhattan(a, mid));
            assert(spec_manhattan(a, mid) + 1 == spec_manhattan(a, b));
        } else {
            let mid = Point { x: (b.x + 1) as i32, y: b.y };
            lemma_wall_free_walk(bv, a, mid);
            assert(edge(bv, mid, b)) by {
                assert(spec_can_move(bv, mid, Direction::Left) && b.x == mid.x + dir_dx(
                    Direction::Left,
                ) && b.y == mid.y + dir_dy(Direction::Left));
            }
            lemma_walk_extend(bv, a, mid, b, spec_manhattan(a, mid));
            assert(spec_manhattan(a, mid) + 1 == spec_manhattan(a, b));
        }
    } else {
        if b.y > a.y {
            let mid = Point { x: b.x, y: (b.y - 1) as i32 };
            lemma_wall_free_walk(bv, a, mid);
            assert(edge(bv, mid, b)) by {
                assert(spec_can_move(bv, mid, Direction::Up) && b.x == mid.x + dir_dx(
                    Direction::Up,
                ) && b.y == mid.y + dir_dy(Direction::Up));
            }
            lemma_walk_extend(bv, a, mid, b, spec_manhattan(a, mid));
            assert(spec_manhattan(a, mid) + 1 == spec_manhattan(a, b));
        } else {
            let mid = Point { x: b.x, y: (b.y + 1) as i32 };
            lemma_wall_free_walk(bv, a, mid);
            assert(edge(bv, mid, b)) by {
                assert(spec_can_move(bv, mid, Direction::Down) && b.x == mid.x + dir_dx(
                    Direction::Down,
                ) && b.y == mid.y + dir_dy(Direction::Down));
            }
            lemma_walk_extend(bv, a, mid, b, spec_manhattan(a, mid));
            assert(spec_manhattan(a, mid) + 1 == spec_manhattan(a, b));
        }
    }
}

/// Each step moves one cell, so no walk is shorter than the Manhattan
/// distance between its endpoints, walls or no walls.
proof fn lemma_walk_manhattan_lower(bv: BoardView, a: Point, b: Point, n: nat)
    requires
        has_walk(bv, a, b, n),
    ensures
        n >= spec_manhattan(a, b),
    decreases n,
{
    if n == 0 {
        let s = choose|s: Seq<Point>| #[trigger] walk_connects(bv, s, a, b) && s.len() == 1;
        assert(a == b);
    } else {
        lemma_walk_decompose(bv, a, b, n);
        let mid = choose|mid: Point|
            #[trigger] has_walk(bv, a, mid, (n - 1) as nat) && edge(bv, mid, b);
        lemma_walk_manhattan_lower(bv, a, mid, (n - 1) as nat);
        let d = choose|d: Direction|
            #[trigger] spec_can_move(bv, mid, d) && b.x == mid.x + dir_dx(d) && b.y == mid.y
                + dir_dy(d);
        assert(spec_manhattan(a, b) <= spec_manhattan(a, mid) + 1);
    }
}

/// On a wall-free board the shortest distance between two of its cells is
/// exactly their Manhattan distance — the same in both directions.
pub proof fn lemma_wall_free_distance(bv: BoardView, a: Point, b: Point)
    requires
        bv.walls.len() == 0,
        in_bounds(bv, a),
        in_bounds(bv, b),
    ensures
        is_min_dist(bv, a, b, spec_manhattan(a, b)),
        is_min_dist(bv, b, a, spec_manhattan(b, a)),
        spec_manhattan(a, b) == spec_manhattan(b, a),
{
    lemma_wall_free_walk(bv, a, b);
    assert forall|m: nat| m < spec_manhattan(a, b) implies !has_walk(bv, a, b, m) by {
        if has_walk(bv, a, b, m) {
            lemma_walk_manhattan_lower(bv, a, b, m);
        }
    }
    lemma_wall_free_walk(bv, b, a);
    assert forall|m: nat| m < spec_manhattan(b, a) implies !has_walk(bv, b, a, m) by {
        if has_walk(bv, b, a, m) {
            lemma_walk_manhattan_lower(bv, b, a, m);
        }
    }
}

/// A pawn that takes a legal step keeps a route to its goal row: the step
/// can be walked back, and walks do not depend on where the pawns stand.
pub proof fn lemma_move_keeps_path(
    bv: BoardView,
    bv2: BoardView,
    p: Point,
    q: Point,
    goal: int,
)
    requires
        bv2.width == bv.width,
        bv2.height == bv.height,
        bv2.walls == bv.walls,
        edge(bv, p, q),
        row_reachable(bv, p, goal),
    ensures
        row_reachable(bv2, q, goal),
{
    let g = choose|g: Point| in_bounds(bv, g) && g.y == goal && #[trigger] reachable(bv, p, g);
    let n = choose|n: nat| has_walk(bv, p, g, n);
    lemma_edge_symmetric(bv, p, q);
    lemma_walk_prepend(bv, q, p, g, n);
    lemma_walk_ignores_pawns(bv, bv2, q, g, n + 1);
    assert(has_walk(bv2, q, g, n + 1));
    assert(reachable(bv2, q, g));
    assert(in_bounds(bv2, g) && g.y == goal && reachable(bv2, q, g));
}

/// A route to the goal row survives any change that keeps the grid and the
/// walls, however the pawns move.
pub proof fn lemma_same_graph_keeps_path(bv: BoardView, bv2: BoardView, p: Point, goal: int)
    requires
        bv2.width == bv.width,
        bv2.height == bv.height,
        bv2.walls == bv.walls,
        row_reachable(bv, p, goal),
    ensures
        row_reachable(bv2, p, goal),
{
    let g = choose|g: Point| in_bounds(bv, g) && g.y == goal && #[trigger] reachable(bv, p, g);
    let n = choose|n: nat| has_walk(bv, p, g, n);
    lemma_walk_ignores_pawns(bv, bv2, p, g, n);
    assert(reachable(bv2, p, g));
    assert(in_bounds(bv2, g) && g.y == goal && reachable(bv2, p, g));
}

} // verus!
