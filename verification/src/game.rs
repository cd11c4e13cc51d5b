//! The turn engine: strict player alternation, per-player wall budgets, win
//! detection, and the central legality gate.  A turn is applied in full or
//! rejected in full, and the blockade rule — every pawn keeps a route to
//! its goal row — is checked on the tentative board before any wall is
//! committed, so it holds after every accepted turn.

use vstd::prelude::*;
use crate::board::{
    board_wf, can_place_wall_spec, in_bounds, lemma_default_board_wf, lemma_move_pawn_wf,
    lemma_place_wall_wf, spec_can_move, spec_default_board, spec_is_won, spec_move_pawn,
    spec_place_wall, Board, BoardView, USER_STARTING_WALLS,
};
use crate::path_finder::{
    edge, is_path, lemma_move_keeps_path, lemma_same_graph_keeps_path, lemma_wall_free_distance,
    reachable, row_reachable,
};
use crate::point::{dir_dx, dir_dy, Direction, Point};
use crate::wall::Orientation;

verus! {

/// One ply: move the acting player's pawn, or place a wall.
#[derive(Clone, Copy, Debug)]
pub enum Turn {
    PlaceWall(Point, Orientation),
    MovePawn(Direction),
}

/// The goal row of player `p` on board `bv`: the edge opposite its start.
pub open spec fn goal_row(bv: BoardView, p: int) -> int {
    if p == 0 {
        bv.height - 1
    } else {
        0
    }
}

/// Every pawn can still reach its goal row: the blockade rule's invariant.
pub open spec fn pawns_have_paths(bv: BoardView) -> bool {
    &&& row_reachable(bv, bv.pawns[0], bv.height - 1)
    &&& row_reachable(bv, bv.pawns[1], 0)
}

/// A two-player game: the board being played, whose turn it is, each
/// player's remaining wall budget, and the log of accepted turns.
pub struct Quoridor {
    board: Board,
    current_player: i32,
    walls_left: Vec<i32>,
    history: Vec<Turn>,
}

impl Quoridor {
    /// The board being played.
    pub closed spec fn spec_board(&self) -> BoardView {
        self.board@
    }

    /// The index of the player to move.
    pub closed spec fn spec_current(&self) -> int {
        self.current_player as int
    }

    /// Remaining wall budgets, one per player.
    pub closed spec fn spec_walls_left(&self) -> Seq<i32> {
        self.walls_left@
    }

    /// The accepted turns so far, oldest first.
    pub closed spec fn spec_history(&self) -> Seq<Turn> {
        self.history@
    }

    /// The game's invariant: a well-formed board small enough to index,
    /// both pawns with a route to their goal rows, a player on turn, and
    /// budgets that never go negative.
    pub open spec fn inv(&self) -> bool {
        &&& board_wf(self.spec_board())
        &&& self.spec_board().width * self.spec_board().height <= usize::MAX
        &&& pawns_have_paths(self.spec_board())
        &&& 0 <= self.spec_current() < 2
        &&& self.spec_walls_left().len() == 2
        &&& self.spec_walls_left()[0] >= 0
        &&& self.spec_walls_left()[1] >= 0
    }

    /// Whether `turn` is legal in the current position: a pawn move must be
    /// geometrically open, and a wall placement needs budget, a free legal
    /// spot, and a surviving route to every pawn's goal row.
    pub open spec fn spec_is_valid(&self, turn: Turn) -> bool {
        match turn {
            Turn::MovePawn(d) => spec_can_move(
                self.spec_board(),
                self.spec_board().pawns[self.spec_current()],
                d,
            ),
            Turn::PlaceWall(p, o) => {
                &&& self.spec_walls_left()[self.spec_current()] > 0
                &&& can_place_wall_spec(self.spec_board(), p, o)
                &&& pawns_have_paths(spec_place_wall(self.spec_board(), p, o))
            },
        }
    }

    /// Sets up the standard game: default board, player 0 to move, ten
    /// walls each, empty history.
    pub fn new_two_player() -> (g: Quoridor)
        ensures
            g.inv(),
            g.spec_board() == spec_default_board(),
            g.spec_current() == 0,
            g.spec_walls_left() == seq![10i32, 10i32],
            g.spec_history() == Seq::<Turn>::empty(),
    {
        let board = Board::create_default();
        let mut walls_left: Vec<i32> = Vec::new();
        walls_left.push(USER_STARTING_WALLS as i32);
        walls_left.push(USER_STARTING_WALLS as i32);
        let g = Quoridor { board, current_player: 0, walls_left, history: Vec::new() };
        proof {
            lemma_default_board_wf();
            let bv = spec_default_board();
            let g0 = Point { x: 4i32, y: 8i32 };
            lemma_wall_free_distance(bv, bv.pawns[0], g0);
            assert(in_bounds(bv, g0) && g0.y == bv.height - 1 && reachable(bv, bv.pawns[0], g0));
            let g1 = Point { x: 4i32, y: 0i32 };
            lemma_wall_free_distance(bv, bv.pawns[1], g1);
            assert(in_bounds(bv, g1) && g1.y == 0 && reachable(bv, bv.pawns[1], g1));
            assert(g.spec_walls_left() =~= seq![10i32, 10i32]);
            assert(g.spec_history() =~= Seq::<Turn>::empty());
        }
        g
    }

    /// How many players sit at the board.
    pub fn number_of_players(&self) -> (r: i32)
        ensures
            r == 2,
    {
        2
    }

    /// The index of the player whose turn it is.
    pub fn current_player(&self) -> (r: i32)
        ensures
            r == self.spec_current(),
    {
        self.current_player
    }

    /// Walls the given player may still place.
    pub fn walls_left(&self, player: i32) -> (r: i32)
        requires
            0 <= player < self.spec_walls_left().len(),
        ensures
            r == self.spec_walls_left()[player as int],
    {
        self.walls_left[player as usize]
    }

    /// Where the given player's pawn stands.
    pub fn pawn(&self, player: i32) -> (r: Point)
        requires
            0 <= player < 2,
            self.spec_board().pawns.len() == 2,
        ensures
            r == self.spec_board().pawns[player as int],
    {
        self.board.get_pawn(player as i8).unwrap()
    }

    /// Whether any pawn stands at `location`.
    pub fn pawn_at(&self, location: Point) -> (r: bool)
        ensures
            r == exists|i: int|
                0 <= i < self.spec_board().pawns.len() && self.spec_board().pawns[i] == location,
    {
        let r = self.board.is_pawn(&location);
        proof {
            let bv = self.spec_board();
            if r {
                let i = choose|i: int|
                    0 <= i < self.board@.pawns.len() && self.board@.pawns[i] == location;
                assert(0 <= i < bv.pawns.len() && bv.pawns[i] == location);
            } else {
                if exists|i: int| 0 <= i < bv.pawns.len() && bv.pawns[i] == location {
                    let i = choose|i: int| 0 <= i < bv.pawns.len() && bv.pawns[i] == location;
                    assert(0 <= i < self.board@.pawns.len() && self.board@.pawns[i] == location);
                }
            }
        }
        r
    }

    /// A read-only view of the board, for renderers and other observers.
    pub fn get_board(&self) -> (r: &Board)
        ensures
            r@ == self.spec_board(),
    {
        &self.board
    }

    /// The accepted turns, in order of play.
    pub fn history(&self) -> (r: &Vec<Turn>)
        ensures
            r@ == self.spec_history(),
    {
        &self.history
    }

    /// Whether the player to move can step one cell in `direction`.
    pub fn can_move(&self, direction: Direction) -> (r: bool)
        requires
            self.inv(),
        ensures
            r == spec_can_move(
                self.spec_board(),
                self.spec_board().pawns[self.spec_current()],
                direction,
            ),
    {
        self.board.can_move(self.current_player as i8, direction)
    }

    /// Whether either pawn has reached its goal row.
    pub fn has_won(&self) -> (r: bool)
        requires
            self.inv(),
        ensures
            r == spec_is_won(self.spec_board()),
    {
        self.board.is_won()
    }

    /// Whether `turn` would be accepted: the single validation gateway.
    pub fn is_valid(&self, turn: Turn) -> (r: bool)
        requires
            self.inv(),
        ensures
            r == self.spec_is_valid(turn),
    {
        match turn {
            Turn::MovePawn(d) => self.can_move(d),
            Turn::PlaceWall(p, o) => {
                if self.walls_left[self.current_player as usize] <= 0 {
                    return false;
                }
                if !self.board.can_place_wall(p, o) {
                    return false;
                }
                let tentative = self.board.place_wall(p, o);
                let p0 = tentative.get_pawn(0).unwrap();
                let p1 = tentative.get_pawn(1).unwrap();
                let h = tentative.get_height();
                proof {
                    assert(tentative@.pawns == self.spec_board().pawns);
                    assert(in_bounds(tentative@, p0));
                    assert(in_bounds(tentative@, p1));
                }
                is_path(&tentative, &p0, h - 1) && is_path(&tentative, &p1, 0)
            },
        }
    }


    /// Whether the player to move could legally place a wall here: the
    /// pre-flight form of `is_valid` for wall turns.
    pub fn can_place_wall(&self, location: Point, orientation: Orientation) -> (r: bool)
        requires
            self.inv(),
        ensures
            r == self.spec_is_valid(Turn::PlaceWall(location, orientation)),
    {
        self.is_valid(Turn::PlaceWall(location, orientation))
    }

    /// Plays one turn: an invalid turn is rejected and changes nothing; a
    /// valid one is applied in full — the board advances, a placed wall
    /// costs the acting player one of its budget, the turn is logged, and
    /// the other player comes on turn.  Both pawns keep a route to their
    /// goal rows.
    pub fn play(&mut self, turn: Turn) -> (r: bool)
        requires
            old(self).inv(),
        ensures
            final(self).inv(),
            r == old(self).spec_is_valid(turn),
            !r ==> final(self).spec_board() == old(self).spec_board() && final(self).spec_current()
                == old(self).spec_current() && final(self).spec_walls_left() == old(self).spec_walls_left() && final(self).spec_history() == old(self).spec_history(),
            r ==> final(self).spec_history() == old(self).spec_history().push(turn),
            r ==> final(self).spec_current() == (old(self).spec_current() + 1) % 2,
            r ==> match turn {
                Turn::MovePawn(d) => final(self).spec_board() == spec_move_pawn(
                    old(self).spec_board(),
                    old(self).spec_current(),
                    d,
                ) && final(self).spec_walls_left() == old(self).spec_walls_left(),
                Turn::PlaceWall(p, o) => final(self).spec_board() == spec_place_wall(
                    old(self).spec_board(),
                    p,
                    o,
                ) && final(self).spec_walls_left() == old(self).spec_walls_left().update(
                    old(self).spec_current(),
                    (old(self).spec_walls_left()[old(self).spec_current()] - 1) as i32,
                ),
            },
    {
        let ghost bv = self.spec_board();
        let ghost cur = self.spec_current();
        if !self.is_valid(turn) {
            return false;
        }
        match turn {
            Turn::MovePawn(d) => {
                let _w = self.board.get_width();
                let _h = self.board.get_height();
                proof {
                    lemma_move_pawn_wf(bv, cur, d);
                }
                let moved = self.board.move_pawn(self.current_player as i8, d);
                proof {
                    let bv2 = moved@;
                    let p = bv.pawns[cur];
                    let q = bv2.pawns[cur];
                    assert(q.x == p.x + dir_dx(d) && q.y == p.y + dir_dy(d));
                    assert(edge(bv, p, q)) by {
                        assert(spec_can_move(bv, p, d) && q.x == p.x + dir_dx(d) && q.y == p.y
                            + dir_dy(d));
                    }
                    lemma_move_keeps_path(bv, bv2, p, q, goal_row(bv, cur));
                    if cur == 0 {
                        lemma_same_graph_keeps_path(bv, bv2, bv.pawns[1], 0);
                        assert(bv2.pawns[1] == bv.pawns[1]);
                    } else {
                        lemma_same_graph_keeps_path(bv, bv2, bv.pawns[0], bv.height - 1);
                        assert(bv2.pawns[0] == bv.pawns[0]);
                    }
                }
                self.board = moved;
            },
            Turn::PlaceWall(p, o) => {
                proof {
                    lemma_place_wall_wf(bv, p, o);
                }
                self.board = self.board.place_wall(p, o);
                let cur_idx = self.current_player as usize;
                let wl = self.walls_left[cur_idx];
                self.walls_left[cur_idx] = wl - 1;
            },
        }
        self.history.push(turn);
        self.current_player = (self.current_player + 1) % 2;
        true
    }


    /// The log as text, for a collaborator that owns the save file: one
    /// line per accepted turn, in order of play.
    pub fn history_to_str(&self) -> (r: String)
        ensures
            r@ == spec_encode_history(self.spec_history()),
    {
        let mut out = String::new();
        let n = self.history.len();
        for i in 0..n
            invariant
                n == self.spec_history().len(),
                n == self.history@.len(),
                self.spec_history() == self.history@,
                out@ == spec_encode_history(self.spec_history().take(i as int)),
        {
            append_turn(&mut out, &self.history[i]);
            out.append("\n");
            proof {
                let h = self.spec_history();
                let taken = h.take(i + 1);
                assert(taken.drop_last() =~= h.take(i as int));
                assert(taken.last() == h[i as int]);
                assert(out@ =~= spec_encode_history(taken));
            }
        }
        proof {
            assert(self.spec_history().take(n as int) =~= self.spec_history());
        }
        out
    }

    /// Moves the acting player's pawn when the step is open, as one whole
    /// turn; an illegal step changes nothing.
    pub fn move_pawn(&mut self, direction: Direction)
        requires
            old(self).inv(),
        ensures
            final(self).inv(),
            old(self).spec_is_valid(Turn::MovePawn(direction)) ==> final(self).spec_board()
                == spec_move_pawn(old(self).spec_board(), old(self).spec_current(), direction)
                && final(self).spec_current() == (old(self).spec_current() + 1) % 2
                && final(self).spec_walls_left() == old(self).spec_walls_left()
                && final(self).spec_history() == old(self).spec_history().push(Turn::MovePawn(direction)),
            !old(self).spec_is_valid(Turn::MovePawn(direction)) ==> final(self).spec_board() == old(self).spec_board()
                && final(self).spec_current() == old(self).spec_current()
                && final(self).spec_walls_left() == old(self).spec_walls_left()
                && final(self).spec_history() == old(self).spec_history(),
    {
        let _ = self.play(Turn::MovePawn(direction));
    }

    /// Places a wall for the acting player when legal, as one whole turn;
    /// an illegal placement changes nothing.
    pub fn place_wall(&mut self, location: Point, orientation: Orientation)
        requires
            old(self).inv(),
        ensures
            final(self).inv(),
            old(self).spec_is_valid(Turn::PlaceWall(location, orientation)) ==> final(self).spec_board() == spec_place_wall(old(self).spec_board(), location, orientation)
                && final(self).spec_current() == (old(self).spec_current() + 1) % 2
                && final(self).spec_walls_left() == old(self).spec_walls_left().update(
                    old(self).spec_current(),
                    (old(self).spec_walls_left()[old(self).spec_current()] - 1) as i32,
                )
                && final(self).spec_history() == old(self).spec_history().push(Turn::PlaceWall(location, orientation)),
            !old(self).spec_is_valid(Turn::PlaceWall(location, orientation)) ==> final(self).spec_board() == old(self).spec_board()
                && final(self).spec_current() == old(self).spec_current()
                && final(self).spec_walls_left() == old(self).spec_walls_left()
                && final(self).spec_history() == old(self).spec_history(),
    {
        let _ = self.play(Turn::PlaceWall(location, orientation));
    }
}

/// The character of a single decimal digit.
pub open spec fn digit_char(d: nat) -> char {
    if d == 0 {
        '0'
    } else if d == 1 {
        '1'
    } else if d == 2 {
        '2'
    } else if d == 3 {
        '3'
    } else if d == 4 {
        '4'
    } else if d == 5 {
        '5'
    } else if d == 6 {
        '6'
    } else if d == 7 {
        '7'
    } else if d == 8 {
        '8'
    } else {
        '9'
    }
}

/// The decimal digits of `n`, most significant first.
pub open spec fn spec_decimal(n: nat) -> Seq<char>
    decreases n,
{
    if n < 10 {
        seq![digit_char(n)]
    } else {
        spec_decimal(n / 10).push(digit_char(n % 10))
    }
}

/// The decimal form of `v`, with a leading minus sign when negative.
pub open spec fn spec_int_decimal(v: int) -> Seq<char> {
    if v < 0 {
        seq!['-'] + spec_decimal((-v) as nat)
    } else {
        spec_decimal(v as nat)
    }
}

/// The stable one-line encoding of a turn: a move encodes as its direction
/// tag, a wall as its column, row and orientation, comma-separated.
pub open spec fn spec_encode_turn(t: Turn) -> Seq<char> {
    match t {
        Turn::MovePawn(d) => match d {
            Direction::Up => "Up"@,
            Direction::Down => "Down"@,
            Direction::Left => "Left"@,
            Direction::Right => "Right"@,
        },
        Turn::PlaceWall(p, o) => spec_int_decimal(p.x as int) + ","@ + spec_int_decimal(p.y as int)
            + ","@ + match o {
            Orientation::Vertical => "Vertical"@,
            Orientation::Horizontal => "Horizontal"@,
        },
    }
}

/// The log as text: each accepted turn on a line of its own, oldest first.
pub open spec fn spec_encode_history(h: Seq<Turn>) -> Seq<char>
    decreases h.len(),
{
    if h.len() == 0 {
        Seq::empty()
    } else {
        spec_encode_history(h.drop_last()) + spec_encode_turn(h.last()) + "\n"@
    }
}

/// Appends the decimal digits of `n`.
fn append_decimal(out: &mut String, n: u32)
    ensures
        final(out)@ == old(out)@ + spec_decimal(n as nat),
    decreases n,
{
    if n >= 10 {
        append_decimal(out, n / 10);
    }
    let ghost mid = out@;
    let d = n % 10;
    let ds: &str = match d {
        0 => "0",
        1 => "1",
        2 => "2",
        3 => "3",
        4 => "4",
        5 => "5",
        6 => "6",
        7 => "7",
        8 => "8",
        _ => "9",
    };
    proof {
        reveal_strlit("0");
        reveal_strlit("1");
        reveal_strlit("2");
        reveal_strlit("3");
        reveal_strlit("4");
        reveal_strlit("5");
        reveal_strlit("6");
        reveal_strlit("7");
        reveal_strlit("8");
        reveal_strlit("9");
        assert(ds@ =~= seq![digit_char((n % 10) as nat)]);
    }
    out.append(ds);
    proof {
        if n < 10 {
            assert(out@ =~= old(out)@ + spec_decimal(n as nat));
        } else {
            assert(mid == old(out)@ + spec_decimal((n / 10) as nat));
            assert(out@ =~= old(out)@ + spec_decimal(n as nat));
        }
    }
}

/// Appends the decimal form of `v`, sign included.
fn append_int_decimal(out: &mut String, v: i32)
    ensures
        final(out)@ == old(out)@ + spec_int_decimal(v as int),
{
    if v < 0 {
        out.append("-");
        let ghost mid = out@;
        let magnitude = (-(v as i64)) as u32;
        append_decimal(out, magnitude);
        proof {
            reveal_strlit("-");
            assert(mid =~= old(out)@ + seq!['-']);
            assert(out@ =~= old(out)@ + spec_int_decimal(v as int));
        }
    } else {
        append_decimal(out, v as u32);
    }
}

/// Appends the stable encoding of one turn.
fn append_turn(out: &mut String, t: &Turn)
    ensures
        final(out)@ == old(out)@ + spec_encode_turn(*t),
{
    match t {
        Turn::MovePawn(d) => {
            match d {
                Direction::Up => out.append("Up"),
                Direction::Down => out.append("Down"),
                Direction::Left => out.append("Left"),
                Direction::Right => out.append("Right"),
            }
        },
        Turn::PlaceWall(p, o) => {
            append_int_decimal(out, p.x);
            let ghost s1 = out@;
            out.append(",");
            let ghost s2 = out@;
            append_int_decimal(out, p.y);
            let ghost s3 = out@;
            out.append(",");
            let ghost s4 = out@;
            match o {
                Orientation::Vertical => out.append("Vertical"),
                Orientation::Horizontal => out.append("Horizontal"),
            }
            proof {
                assert(out@ =~= old(out)@ + spec_encode_turn(*t));
            }
        },
    }
}

} // verus!
