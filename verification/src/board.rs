//! The game board: grid dimensions, pawn positions and placed walls, with
//! per-direction move legality derived from wall geometry, and pure state
//! transitions for pawn moves and wall placements.

use vstd::prelude::*;
use crate::point::{create, dir_dx, dir_dy, Direction, Point};
use crate::wall::{spec_clashes, Orientation, Wall};

verus! {

/// Walls each player may place in a default game.
pub const USER_STARTING_WALLS: usize = 10;

/// Capacity of the board's wall collection: both players' full allowance.
pub const MAX_WALLS: usize = 20;

/// The mathematical content of a board: its dimensions, the pawn
/// coordinates in player order, and the placed walls in placement order.
#[verifier::ext_equal]
pub struct BoardView {
    pub width: int,
    pub height: int,
    pub pawns: Seq<Point>,
    pub walls: Seq<Wall>,
}

/// One complete game board.  Transitions return a fresh board; no method
/// mutates the receiver.
#[derive(Debug)]
pub struct Board {
    width: i32,
    height: i32,
    pawns: Vec<Point>,
    walls: Vec<Wall>,
}

impl View for Board {
    type V = BoardView;

    closed spec fn view(&self) -> BoardView {
        BoardView {
            width: self.width as int,
            height: self.height as int,
            pawns: self.pawns@,
            walls: self.walls@,
        }
    }
}

/// Whether `p` lies on the board.
pub open spec fn in_bounds(bv: BoardView, p: Point) -> bool {
    &&& 0 <= p.x < bv.width
    &&& 0 <= p.y < bv.height
}

/// Whether `w` sits at column `x`, row `y` with orientation `o`.
pub open spec fn wall_matches(w: Wall, x: int, y: int, o: Orientation) -> bool {
    &&& w.location.x == x
    &&& w.location.y == y
    &&& w.orientation == o
}

/// Whether some placed wall sits at column `x`, row `y` with orientation `o`.
pub open spec fn has_wall_at(bv: BoardView, x: int, y: int, o: Orientation) -> bool {
    exists|i: int| 0 <= i < bv.walls.len() && #[trigger] wall_matches(bv.walls[i], x, y, o)
}

/// The orientation a wall must have to block a step in direction `d`.
pub open spec fn blocking_orientation(d: Direction) -> Orientation {
    match d {
        Direction::Up | Direction::Down => Orientation::Horizontal,
        Direction::Left | Direction::Right => Orientation::Vertical,
    }
}

/// First of the two wall positions whose footprint covers the edge crossed
/// by a step from `p` in direction `d`.
pub open spec fn wall_candidate_1(p: Point, d: Direction) -> (int, int) {
    match d {
        Direction::Up | Direction::Right => (p.x as int, p.y as int),
        Direction::Down | Direction::Left => (p.x - 1, p.y - 1),
    }
}

/// Second of the two wall positions whose footprint covers that edge.
pub open spec fn wall_candidate_2(p: Point, d: Direction) -> (int, int) {
    match d {
        Direction::Up | Direction::Left => (p.x - 1, p.y as int),
        Direction::Down | Direction::Right => (p.x as int, p.y - 1),
    }
}

/// A step from `p` in direction `d` is legal when the destination stays on
/// the board and neither candidate wall position holds a wall of the
/// blocking orientation.
pub open spec fn spec_can_move(bv: BoardView, p: Point, d: Direction) -> bool {
    &&& 0 <= p.x + dir_dx(d) < bv.width
    &&& 0 <= p.y + dir_dy(d) < bv.height
    &&& !has_wall_at(
        bv,
        wall_candidate_1(p, d).0,
        wall_candidate_1(p, d).1,
        blocking_orientation(d),
    )
    &&& !has_wall_at(
        bv,
        wall_candidate_2(p, d).0,
        wall_candidate_2(p, d).1,
        blocking_orientation(d),
    )
}

/// `v` clamped into `[0, hi - 1]`, with the lower bound applied first as
/// the transition demands.
pub open spec fn spec_clamp(v: int, hi: int) -> int {
    let lo = if v < 0 { 0 } else { v };
    if lo > hi - 1 { hi - 1 } else { lo }
}

/// The board after pawn `pawn` takes one (unchecked) step in `d`: its
/// coordinate shifts one unit and is clamped to the grid.
pub open spec fn spec_move_pawn(bv: BoardView, pawn: int, d: Direction) -> BoardView {
    let p = bv.pawns[pawn];
    let moved = Point {
        x: spec_clamp(p.x + dir_dx(d), bv.width) as i32,
        y: spec_clamp(p.y + dir_dy(d), bv.height) as i32,
    };
    BoardView { pawns: bv.pawns.update(pawn, moved), ..bv }
}

/// A wall may be placed at `p` with orientation `o` when `p` lies in the
/// interior range that admits the wall's two-cell footprint, the wall
/// collection is not full, and the new wall clashes with no placed wall.
pub open spec fn can_place_wall_spec(bv: BoardView, p: Point, o: Orientation) -> bool {
    &&& 0 <= p.x < bv.width - 1
    &&& 0 <= p.y < bv.height - 1
    &&& bv.walls.len() < MAX_WALLS
    &&& forall|i: int| 0 <= i < bv.walls.len() ==> !spec_clashes(
        #[trigger] bv.walls[i],
        Wall { location: p, orientation: o },
    )
}

/// The board after attempting to place a wall: the wall is appended when
/// the placement is legal, otherwise the board is unchanged.
pub open spec fn spec_place_wall(bv: BoardView, p: Point, o: Orientation) -> BoardView {
    if can_place_wall_spec(bv, p, o) {
        BoardView { walls: bv.walls.push(Wall { location: p, orientation: o }), ..bv }
    } else {
        bv
    }
}

/// A pawn in a winning position: player 0 has reached the top row, or
/// player 1 the bottom row.
pub open spec fn spec_is_won(bv: BoardView) -> bool {
    bv.pawns[0].y == bv.height - 1 || bv.pawns[1].y == 0
}

/// Well-formedness of a playable board: two pawns, both on the grid, and a
/// wall collection within capacity whose walls stand on the grid and are
/// pairwise compatible.
pub open spec fn board_wf(bv: BoardView) -> bool {
    &&& bv.pawns.len() == 2
    &&& forall|i: int| 0 <= i < bv.pawns.len() ==> in_bounds(bv, #[trigger] bv.pawns[i])
    &&& bv.walls.len() <= MAX_WALLS
    &&& forall|i: int, j: int|
        0 <= i < bv.walls.len() && 0 <= j < bv.walls.len() && i != j ==> !spec_clashes(
            #[trigger] bv.walls[i],
            #[trigger] bv.walls[j],
        )
    &&& forall|i: int| 0 <= i < bv.walls.len() ==> {
        let w = #[trigger] bv.walls[i];
        0 <= w.location.x < bv.width && 0 <= w.location.y < bv.height
    }
}

/// The default board: 9 by 9, pawns at the midpoints of the bottom and top
/// edges, no walls.
pub open spec fn spec_default_board() -> BoardView {
    BoardView {
        width: 9,
        height: 9,
        pawns: seq![Point { x: 4, y: 0 }, Point { x: 4, y: 8 }],
        walls: Seq::empty(),
    }
}

/// The default board is well formed.
pub proof fn lemma_default_board_wf()
    ensures
        board_wf(spec_default_board()),
{
    assert(spec_default_board().pawns.len() == 2);
    assert(in_bounds(spec_default_board(), spec_default_board().pawns[0]));
    assert(in_bounds(spec_default_board(), spec_default_board().pawns[1]));
}

/// A step whose destination lies off the board is never legal, in any of
/// the four directions, from any cell.
pub proof fn lemma_can_move_stays_on_board(bv: BoardView, p: Point, d: Direction)
    ensures
        !(0 <= p.x + dir_dx(d) < bv.width && 0 <= p.y + dir_dy(d) < bv.height)
            ==> !spec_can_move(bv, p, d),
{
}

/// Copies a vector of plain values element by element.
fn copy_vec<T: Copy>(v: &Vec<T>) -> (r: Vec<T>)
    ensures
        r@ == v@,
{
    let mut r: Vec<T> = Vec::new();
    let n = v.len();
    for i in 0..n
        invariant
            n == v@.len(),
            r@ == v@.subrange(0, i as int),
    {
        r.push(v[i]);
        proof {
            assert(r@ =~= v@.subrange(0, i + 1));
        }
    }
    proof {
        assert(r@ =~= v@);
    }
    r
}

impl Board {
    /// An empty scaffold board: no grid yet, both pawns parked off-board.
    pub fn create() -> (b: Board)
        ensures
            b@ == (BoardView {
                width: 0,
                height: 0,
                pawns: seq![Point { x: -1i32, y: -1i32 }, Point { x: -1i32, y: -1i32 }],
                walls: Seq::<Wall>::empty(),
            }),
    {
        let mut pawns: Vec<Point> = Vec::new();
        pawns.push(create(-1, -1));
        pawns.push(create(-1, -1));
        let b = Board { width: 0, height: 0, pawns, walls: Vec::new() };
        proof {
            assert(b@ =~= (BoardView {
                width: 0,
                height: 0,
                pawns: seq![Point { x: -1i32, y: -1i32 }, Point { x: -1i32, y: -1i32 }],
                walls: Seq::<Wall>::empty(),
            }));
        }
        b
    }

    /// The standard starting board.
    pub fn create_default() -> (b: Board)
        ensures
            b@ == spec_default_board(),
    {
        let b = Board::create()
            .set_height(9)
            .set_width(9)
            .set_pawn(0, create(4, 0))
            .set_pawn(1, create(4, 8));
        proof {
            assert(b@ =~= spec_default_board());
        }
        b
    }

    /// The board with its width replaced.
    pub fn set_width(self, width: i32) -> (b: Board)
        ensures
            b@ == (BoardView { width: width as int, ..self@ }),
    {
        let b = Board { width, ..self };
        proof {
            assert(b@ =~= (BoardView { width: width as int, ..self@ }));
        }
        b
    }

    /// The number of columns.
    pub fn get_width(&self) -> (w: i32)
        ensures
            w == self@.width,
    {
        self.width
    }

    /// The board with its height replaced.
    pub fn set_height(self, height: i32) -> (b: Board)
        ensures
            b@ == (BoardView { height: height as int, ..self@ }),
    {
        let b = Board { height, ..self };
        proof {
            assert(b@ =~= (BoardView { height: height as int, ..self@ }));
        }
        b
    }

    /// The number of rows.
    pub fn get_height(&self) -> (h: i32)
        ensures
            h == self@.height,
    {
        self.height
    }

    /// The board with pawn `pawn` put at `location`.
    pub fn set_pawn(self, pawn: i8, location: Point) -> (b: Board)
        requires
            0 <= pawn < self@.pawns.len(),
        ensures
            b@ == (BoardView { pawns: self@.pawns.update(pawn as int, location), ..self@ }),
    {
        let mut pawns = self.pawns;
        pawns[pawn as usize] = location;
        let b = Board { pawns, ..self };
        proof {
            assert(b@ =~= (BoardView { pawns: self@.pawns.update(pawn as int, location), ..self@ }));
        }
        b
    }

    /// The position of pawn `pawn`, or `None` for an index no player owns.
    pub fn get_pawn(&self, pawn: i8) -> (r: Option<Point>)
        ensures
            r == if 0 <= pawn < self@.pawns.len() {
                Some(self@.pawns[pawn as int])
            } else {
                None::<Point>
            },
    {
        if pawn >= 0 && (pawn as usize) < self.pawns.len() {
            Some(self.pawns[pawn as usize])
        } else {
            None
        }
    }

    /// Whether pawn `pawn` may take one step in `direction`: the
    /// destination stays on the grid and no placed wall blocks the edge.
    pub fn can_move(&self, pawn_index: i8, direction: Direction) -> (r: bool)
        requires
            0 <= pawn_index < self@.pawns.len(),
        ensures
            r == spec_can_move(self@, self@.pawns[pawn_index as int], direction),
    {
        let p = self.pawns[pawn_index as usize];
        self.can_move_from(p, direction)
    }

    /// Whether a step from `point` in `direction` is legal on this board.
    pub fn can_move_from(&self, point: Point, direction: Direction) -> (r: bool)
        ensures
            r == spec_can_move(self@, point, direction),
    {
        let dx: i64 = match direction {
            Direction::Right => 1,
            Direction::Left => -1,
            _ => 0,
        };
        let dy: i64 = match direction {
            Direction::Up => 1,
            Direction::Down => -1,
            _ => 0,
        };
        let nx: i64 = point.x as i64 + dx;
        let ny: i64 = point.y as i64 + dy;
        if nx < 0 || nx >= self.width as i64 {
            return false;
        }
        if ny < 0 || ny >= self.height as i64 {
            return false;
        }
        let orientation = match direction {
            Direction::Up | Direction::Down => Orientation::Horizontal,
            Direction::Left | Direction::Right => Orientation::Vertical,
        };
        let c1 = match direction {
            Direction::Up | Direction::Right => point,
            Direction::Down | Direction::Left => create(point.x - 1, point.y - 1),
        };
        let c2 = match direction {
            Direction::Up | Direction::Left => create(point.x - 1, point.y),
            Direction::Down | Direction::Right => create(point.x, point.y - 1),
        };
        !(self.has_wall(c1, orientation) || self.has_wall(c2, orientation))
    }

    /// The board after pawn `pawn` takes one step in `direction`, clamped
    /// to the grid.  Legality is the caller's business: check `can_move`
    /// first, or the wall geometry is silently ignored.
    pub fn move_pawn(&self, pawn: i8, direction: Direction) -> (b: Board)
        requires
            0 <= pawn < self@.pawns.len(),
            self@.width > i32::MIN,
            self@.height > i32::MIN,
        ensures
            b@ == spec_move_pawn(self@, pawn as int, direction),
    {
        let p = self.pawns[pawn as usize];
        let dx: i64 = match direction {
            Direction::Right => 1,
            Direction::Left => -1,
            _ => 0,
        };
        let dy: i64 = match direction {
            Direction::Up => 1,
            Direction::Down => -1,
            _ => 0,
        };
        let mut cx: i64 = p.x as i64 + dx;
        if cx < 0 {
            cx = 0;
        }
        if cx > self.width as i64 - 1 {
            cx = self.width as i64 - 1;
        }
        let mut cy: i64 = p.y as i64 + dy;
        if cy < 0 {
            cy = 0;
        }
        if cy > self.height as i64 - 1 {
            cy = self.height as i64 - 1;
        }
        let mut pawns = copy_vec(&self.pawns);
        pawns[pawn as usize] = create(cx as i32, cy as i32);
        let b = Board {
            width: self.width,
            height: self.height,
            pawns,
            walls: copy_vec(&self.walls),
        };
        proof {
            assert(b@ =~= spec_move_pawn(self@, pawn as int, direction));
        }
        b
    }

    /// Whether a wall may be placed at `location` with `orientation`.
    pub fn can_place_wall(&self, location: Point, orientation: Orientation) -> (r: bool)
        ensures
            r == can_place_wall_spec(self@, location, orientation),
    {
        let w = Wall { location, orientation };
        let n = self.walls.len();
        for i in 0..n
            invariant
                n == self@.walls.len(),
                w == (Wall { location, orientation }),
                forall|j: int| 0 <= j < i ==> !spec_clashes(#[trigger] self@.walls[j], w),
        {
            if self.walls[i].clashes(w) {
                return false;
            }
        }
        if n >= MAX_WALLS {
            return false;
        }
        if location.x < 0 || location.x as i64 >= self.width as i64 - 1 || location.y < 0
            || location.y as i64 >= self.height as i64 - 1 {
            return false;
        }
        true
    }

    /// The board after attempting to place a wall at `location`: appended
    /// when legal, otherwise the board is returned unchanged, which the
    /// caller must treat as a rejection.
    pub fn place_wall(&self, location: Point, orientation: Orientation) -> (b: Board)
        ensures
            b@ == spec_place_wall(self@, location, orientation),
    {
        let mut walls = copy_vec(&self.walls);
        if self.can_place_wall(location, orientation) {
            walls.push(Wall { location, orientation });
        }
        let b = Board {
            width: self.width,
            height: self.height,
            pawns: copy_vec(&self.pawns),
            walls,
        };
        proof {
            assert(b@ =~= spec_place_wall(self@, location, orientation));
        }
        b
    }

    /// Whether some placed wall sits at `location` with `orientation`.
    pub fn has_wall(&self, location: Point, orientation: Orientation) -> (r: bool)
        ensures
            r == has_wall_at(self@, location.x as int, location.y as int, orientation),
    {
        let n = self.walls.len();
        for i in 0..n
            invariant
                n == self@.walls.len(),
                forall|j: int| 0 <= j < i ==> !wall_matches(
                    #[trigger] self@.walls[j],
                    location.x as int,
                    location.y as int,
                    orientation,
                ),
        {
            let w = self.walls[i];
            if w.location == location && w.orientation == orientation {
                proof {
                    assert(wall_matches(
                        self@.walls[i as int],
                        location.x as int,
                        location.y as int,
                        orientation,
                    ));
                }
                return true;
            }
        }
        false
    }

    /// Whether any pawn stands at `location`.
    pub fn is_pawn(&self, location: &Point) -> (r: bool)
        ensures
            r == exists|i: int| 0 <= i < self@.pawns.len() && self@.pawns[i] == *location,
    {
        let n = self.pawns.len();
        for i in 0..n
            invariant
                n == self@.pawns.len(),
                forall|j: int| 0 <= j < i ==> self@.pawns[j] != *location,
        {
            if self.pawns[i].x == location.x && self.pawns[i].y == location.y {
                proof {
                    assert(self@.pawns[i as int] == *location);
                }
                return true;
            }
        }
        false
    }

    /// Whether either pawn stands in a winning position.
    pub fn is_won(&self) -> (r: bool)
        requires
            self@.pawns.len() == 2,
        ensures
            r == spec_is_won(self@),
    {
        self.pawns[0].y as i64 == self.height as i64 - 1 || self.pawns[1].y == 0
    }
}

impl PartialEq for Board {
    /// Two boards are equal when every component of their state is.
    fn eq(&self, other: &Board) -> (r: bool) {
        if self.width != other.width || self.height != other.height {
            return false;
        }
        if self.pawns.len() != other.pawns.len() || self.walls.len() != other.walls.len() {
            return false;
        }
        let np = self.pawns.len();
        for i in 0..np
            invariant
                np == self@.pawns.len(),
                np == other@.pawns.len(),
                forall|j: int| 0 <= j < i ==> self@.pawns[j] == other@.pawns[j],
        {
            if self.pawns[i] != other.pawns[i] {
                return false;
            }
        }
        let nw = self.walls.len();
        for i in 0..nw
            invariant
                nw == self@.walls.len(),
                nw == other@.walls.len(),
                forall|j: int| 0 <= j < i ==> self@.walls[j] == other@.walls[j],
        {
            if self.walls[i] != other.walls[i] {
                return false;
            }
        }
        proof {
            assert(self@.pawns =~= other@.pawns);
            assert(self@.walls =~= other@.walls);
            assert(self@ =~= other@);
        }
        true
    }
}

impl vstd::std_specs::cmp::PartialEqSpecImpl for Board {
    open spec fn obeys_eq_spec() -> bool {
        true
    }

    open spec fn eq_spec(&self, other: &Board) -> bool {
        self@ == other@
    }
}

/// The standard starting board, as a free constructor.
pub fn default_board() -> (b: Board)
    ensures
        b@ == spec_default_board(),
{
    Board::create_default()
}

/// Placing a wall that clashes with one already on the board leaves the
/// board exactly as it was: the rejected placement is a no-op.
pub proof fn lemma_clashing_wall_rejected(bv: BoardView, p: Point, o: Orientation, i: int)
    requires
        0 <= i < bv.walls.len(),
        spec_clashes(bv.walls[i], Wall { location: p, orientation: o }),
    ensures
        spec_place_wall(bv, p, o) == bv,
{
    assert(!can_place_wall_spec(bv, p, o));
}

/// A wall placement preserves well-formedness: it is either rejected
/// outright or adds an on-board wall that clashes with nothing.
pub proof fn lemma_place_wall_wf(bv: BoardView, p: Point, o: Orientation)
    requires
        board_wf(bv),
    ensures
        board_wf(spec_place_wall(bv, p, o)),
{
    if can_place_wall_spec(bv, p, o) {
        let w = Wall { location: p, orientation: o };
        let bv2 = spec_place_wall(bv, p, o);
        assert forall|i: int, j: int|
            0 <= i < bv2.walls.len() && 0 <= j < bv2.walls.len() && i != j implies !spec_clashes(
            #[trigger] bv2.walls[i],
            #[trigger] bv2.walls[j],
        ) by {
            if i < bv.walls.len() && j < bv.walls.len() {
                assert(!spec_clashes(bv.walls[i], bv.walls[j]));
            } else if j == bv.walls.len() {
                assert(bv2.walls[j] == w);
                assert(!spec_clashes(bv.walls[i], w));
                crate::wall::lemma_clashes_symmetric(bv.walls[i], w);
            } else {
                assert(bv2.walls[i] == w);
                assert(!spec_clashes(bv.walls[j], w));
                crate::wall::lemma_clashes_symmetric(bv.walls[j], w);
            }
        }
        assert forall|i: int| 0 <= i < bv2.pawns.len() implies in_bounds(
            bv2,
            #[trigger] bv2.pawns[i],
        ) by {
            assert(in_bounds(bv, bv.pawns[i]));
        }
    }
}

/// A pawn move preserves well-formedness: the destination is clamped onto
/// the grid.
pub proof fn lemma_move_pawn_wf(bv: BoardView, pawn: int, d: Direction)
    requires
        board_wf(bv),
        bv.width <= i32::MAX,
        bv.height <= i32::MAX,
        0 <= pawn < bv.pawns.len(),
    ensures
        board_wf(spec_move_pawn(bv, pawn, d)),
{
    let bv2 = spec_move_pawn(bv, pawn, d);
    assert(in_bounds(bv, bv.pawns[0]));
    assert forall|i: int| 0 <= i < bv2.pawns.len() implies in_bounds(
        bv2,
        #[trigger] bv2.pawns[i],
    ) by {
        assert(in_bounds(bv, bv.pawns[i]));
        if i == pawn {
            assert(bv.width >= 1 && bv.height >= 1);
        }
    }
}

} // verus!
