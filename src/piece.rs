use vstd::prelude::*;

use crate::board::Board;
use crate::position::{on_board, Position};

verus! {

/// The six kinds of chess piece.
#[derive(Debug, Clone, Copy, PartialEq, Eq, Structural)]
pub enum PieceType {
    Bishop,
    King,
    Knight,
    Pawn,
    Queen,
    Rook,
}

/// The two sides.
#[derive(Debug, Clone, Copy, PartialEq, Eq, Structural)]
pub enum Color {
    White,
    Black,
}

/// A piece: its kind and side, and two flags that a fresh piece has cleared.
#[derive(Debug, Clone, Copy, PartialEq, Eq, Structural)]
pub struct Piece {
    pub piece_type: PieceType,
    pub color: Color,
    pub en_passant: bool,
    pub promotion: bool,
}

impl Color {
    /// The other side.
    pub open spec fn opponent(self) -> Color {
        match self {
            Color::White => Color::Black,
            Color::Black => Color::White,
        }
    }

    /// The other side.
    pub fn other(self) -> (r: Color)
        ensures
            r == self.opponent(),
    {
        match self {
            Color::White => Color::Black,
            Color::Black => Color::White,
        }
    }
}

/// A fresh piece of the given kind and side.
pub open spec fn fresh(kind: PieceType, color: Color) -> Piece {
    Piece { piece_type: kind, color, en_passant: false, promotion: false }
}

/// The rank offset `dy` as seen from `color`'s side of the board.
pub open spec fn forward(color: Color, dy: int) -> int {
    match color {
        Color::White => dy,
        Color::Black => -dy,
    }
}

/// Kinds that move by a single offset rather than along a ray.
pub open spec fn steps_once(kind: PieceType) -> bool {
    kind == PieceType::Pawn || kind == PieceType::Knight || kind == PieceType::King
}

pub open spec fn sq(x: int, y: int) -> (usize, usize) {
    (x as usize, y as usize)
}

/// The destination reached by one offset of a bounded-step piece standing on (x, y), if any.
pub open spec fn step_dest(p: Position, pc: Piece, x: int, y: int, dx: int, dy: int) -> Seq<(usize, usize)> {
    let nx = x + dx;
    let ny = y + forward(pc.color, dy);
    if !on_board(nx, ny) || p.own(nx, ny, pc.color) {
        seq![]
    } else if pc.piece_type == PieceType::Pawn && (if p.enemy(nx, ny, pc.color) {
        dx == 0
    } else {
        dx != 0
    }) {
        seq![]
    } else {
        seq![sq(nx, ny)]
    }
}

/// The squares a sliding piece of side `c` reaches from (x, y) in direction (dx, dy), in at most
/// `n` steps: it stops before the edge and before a piece of its own side, and stops on the first
/// piece of the other side.
pub open spec fn ray(p: Position, c: Color, x: int, y: int, dx: int, dy: int, n: nat) -> Seq<(usize, usize)>
    decreases n,
{
    if n == 0 {
        seq![]
    } else {
        let nx = x + dx;
        let ny = y + dy;
        if !on_board(nx, ny) || p.own(nx, ny, c) {
            seq![]
        } else if p.enemy(nx, ny, c) {
            seq![sq(nx, ny)]
        } else {
            seq![sq(nx, ny)] + ray(p, c, nx, ny, dx, dy, (n - 1) as nat)
        }
    }
}

/// What one direction of a table gives a piece on (x, y).
pub open spec fn direction(p: Position, pc: Piece, x: int, y: int, dx: int, dy: int) -> Seq<(usize, usize)> {
    if steps_once(pc.piece_type) {
        step_dest(p, pc, x, y, dx, dy)
    } else {
        ray(p, pc.color, x, y, dx, forward(pc.color, dy), 7)
    }
}

/// The destinations that a table of offsets gives, up to its first (0, 0) entry.
pub open spec fn generated(p: Position, pc: Piece, x: int, y: int, s: Seq<(i32, i32)>) -> Seq<(usize, usize)>
    decreases s.len(),
{
    if s.len() == 0 || (s[0].0 == 0 && s[0].1 == 0) {
        seq![]
    } else {
        direction(p, pc, x, y, s[0].0 as int, s[0].1 as int) + generated(p, pc, x, y, s.drop_first())
    }
}

pub open spec fn bishop_steps() -> Seq<(i32, i32)> {
    seq![(1i32, 1i32), (-1i32, 1), (1, -1i32), (-1i32, -1i32), (0, 0), (0, 0), (0, 0), (0, 0)]
}

/// The eight neighbours: the king's table, and the queen's.
pub open spec fn king_steps() -> Seq<(i32, i32)> {
    seq![(-1i32, -1i32), (-1i32, 0), (0, -1i32), (-1i32, 1), (1, -1i32), (0, 1), (1, 0), (1, 1)]
}

pub open spec fn knight_steps() -> Seq<(i32, i32)> {
    seq![(2i32, 1i32), (1, 2), (-1i32, 2), (-2i32, 1), (-2i32, -1i32), (-1i32, -2i32), (1, -2i32), (2, -1i32)]
}

pub open spec fn pawn_steps() -> Seq<(i32, i32)> {
    seq![(0i32, 1i32), (-1i32, 1), (1, 1), (0, 0), (0, 0), (0, 0), (0, 0), (0, 0)]
}

pub open spec fn rook_steps() -> Seq<(i32, i32)> {
    seq![(1i32, 0i32), (-1i32, 0), (0, 1), (0, -1i32), (0, 0), (0, 0), (0, 0), (0, 0)]
}

/// The double step of a pawn on its starting rank, offered whatever stands ahead of it.
pub open spec fn double_step_dest(pc: Piece, x: int, y: int) -> Seq<(usize, usize)> {
    if y == 1 && pc.color == Color::White {
        seq![sq(x, y + 2)]
    } else if y == 6 && pc.color == Color::Black {
        seq![sq(x, y - 2)]
    } else {
        seq![]
    }
}

/// The en-passant capture towards file x + s: the pawn on (x, y) stands on its fifth rank, and
/// the enemy pawn beside it has just made a double step onto its square.
pub open spec fn en_passant_side(p: Position, pc: Piece, x: int, y: int, s: int) -> Seq<(usize, usize)> {
    let ax = x + s;
    if on_board(ax, y) && p.enemy(ax, y, pc.color) && p.grid[ax][y].unwrap().piece_type
        == PieceType::Pawn && p.double_step == Some(sq(ax, y)) {
        seq![sq(ax, y + forward(pc.color, 1))]
    } else {
        seq![]
    }
}

pub open spec fn en_passant_rank(pc: Piece, y: int) -> bool {
    (y == 4 && pc.color == Color::White) || (y == 3 && pc.color == Color::Black)
}

pub open spec fn en_passant_dests(p: Position, pc: Piece, x: int, y: int) -> Seq<(usize, usize)> {
    if en_passant_rank(pc, y) {
        en_passant_side(p, pc, x, y, -1) + en_passant_side(p, pc, x, y, 1)
    } else {
        seq![]
    }
}

pub open spec fn pawn_moves(p: Position, pc: Piece, x: int, y: int) -> Seq<(usize, usize)> {
    generated(p, pc, x, y, pawn_steps()) + double_step_dest(pc, x, y) + en_passant_dests(p, pc, x, y)
}

/// The pseudo-legal destinations of `pc` standing on (x, y): its movement pattern, ignoring
/// whether its own king is left in check.
pub open spec fn pseudo_moves(p: Position, pc: Piece, x: int, y: int) -> Seq<(usize, usize)> {
    match pc.piece_type {
        PieceType::Bishop => generated(p, pc, x, y, bishop_steps()),
        PieceType::King => generated(p, pc, x, y, king_steps()),
        PieceType::Knight => generated(p, pc, x, y, knight_steps()),
        PieceType::Pawn => pawn_moves(p, pc, x, y),
        PieceType::Queen => generated(p, pc, x, y, king_steps()),
        PieceType::Rook => generated(p, pc, x, y, rook_steps()),
    }
}

/// Whether no entry of the table before index `k` is the (0, 0) sentinel.
pub open spec fn live_before(s: Seq<(i32, i32)>, k: int) -> bool {
    forall|m: int| #![trigger s[m]] 0 <= m < k ==> !(s[m].0 == 0 && s[m].1 == 0)
}

/// The offsets that generation reads, those up to the first (0, 0) entry, are small enough that
/// a step from a square stays far from any overflow.
pub open spec fn small_steps(s: Seq<(i32, i32)>) -> bool {
    forall|k: int|
        #![trigger s[k]]
        0 <= k < s.len() && live_before(s, k) ==> -8 <= s[k].0 <= 8 && -8 <= s[k].1 <= 8
}

impl Piece {
    /// A piece of the given kind and side, with both flags cleared.
    pub fn new(piece_type: PieceType, color: Color) -> (r: Self)
        ensures
            r == fresh(piece_type, color),
    {
        Piece { piece_type, color, en_passant: false, promotion: false }
    }

    /// The pseudo-legal destinations of this piece standing on `loc`.
    pub fn available_moves(&self, loc: (usize, usize), board: &Board) -> (r: Vec<(usize, usize)>)
        requires
            board.wf(),
            loc.0 < 8,
            loc.1 < 8,
        ensures
            r@ == pseudo_moves(board@, *self, loc.0 as int, loc.1 as int),
    {
        match self.piece_type {
            PieceType::Bishop => self.move_bishop(loc, board),
            PieceType::King => self.move_king(loc, board),
            PieceType::Knight => self.move_knight(loc, board),
            PieceType::Pawn => self.move_pawn(loc, board),
            PieceType::Queen => self.move_queen(loc, board),
            PieceType::Rook => self.move_rook(loc, board),
        }
    }

    /// The destinations along the four diagonals.
    pub fn move_bishop(&self, loc: (usize, usize), board: &Board) -> (r: Vec<(usize, usize)>)
        requires
            board.wf(),
            loc.0 < 8,
            loc.1 < 8,
        ensures
            r@ == generated(board@, *self, loc.0 as int, loc.1 as int, bishop_steps()),
    {
        let steps: [(i32, i32); 8] = [(1, 1), (-1, 1), (1, -1), (-1, -1), (0, 0), (0, 0), (0, 0), (0, 0)];
        assert(steps@ == bishop_steps());
        self.generate_moves(steps, loc, board)
    }

    /// The destinations one square away in each of the eight directions.
    pub fn move_king(&self, loc: (usize, usize), board: &Board) -> (r: Vec<(usize, usize)>)
        requires
            board.wf(),
            loc.0 < 8,
            loc.1 < 8,
        ensures
            r@ == generated(board@, *self, loc.0 as int, loc.1 as int, king_steps()),
    {
        let steps: [(i32, i32); 8] = [(-1, -1), (-1, 0), (0, -1), (-1, 1), (1, -1), (0, 1), (1, 0), (1, 1)];
        assert(steps@ == king_steps());
        self.generate_moves(steps, loc, board)
    }

    /// The destinations a knight's jump away.
    pub fn move_knight(&self, loc: (usize, usize), board: &Board) -> (r: Vec<(usize, usize)>)
        requires
            board.wf(),
            loc.0 < 8,
            loc.1 < 8,
        ensures
            r@ == generated(board@, *self, loc.0 as int, loc.1 as int, knight_steps()),
    {
        let steps: [(i32, i32); 8] = [(2, 1), (1, 2), (-1, 2), (-2, 1), (-2, -1), (-1, -2), (1, -2), (2, -1)];
        assert(steps@ == knight_steps());
        self.generate_moves(steps, loc, board)
    }

    /// The single steps and diagonal captures, the double step from the starting rank, and the
    /// en-passant captures.
    pub fn move_pawn(&self, loc: (usize, usize), board: &Board) -> (r: Vec<(usize, usize)>)
        requires
            board.wf(),
            loc.0 < 8,
            loc.1 < 8,
        ensures
            r@ == pawn_moves(board@, *self, loc.0 as int, loc.1 as int),
    {
        let steps: [(i32, i32); 8] = [(0, 1), (-1, 1), (1, 1), (0, 0), (0, 0), (0, 0), (0, 0), (0, 0)];
        assert(steps@ == pawn_steps());
        let mut available_moves = self.generate_moves(steps, loc, board);
        let ghost gen = available_moves@;
        if loc.1 == 1 && self.color == Color::White {
            available_moves.push((loc.0, loc.1 + 2));
        }
        if loc.1 == 6 && self.color == Color::Black {
            available_moves.push((loc.0, loc.1 - 2));
        }
        assert(available_moves@ == gen + double_step_dest(*self, loc.0 as int, loc.1 as int));
        self.check_for_en_passant(available_moves, loc, board)
    }

    /// Appends to `available_moves` the en-passant captures open to this pawn on `loc`.
    pub fn check_for_en_passant(
        &self,
        available_moves: Vec<(usize, usize)>,
        loc: (usize, usize),
        board: &Board,
    ) -> (r: Vec<(usize, usize)>)
        requires
            board.wf(),
            loc.0 < 8,
            loc.1 < 8,
        ensures
            r@ == available_moves@ + en_passant_dests(board@, *self, loc.0 as int, loc.1 as int),
    {
        let mut available_moves = available_moves;
        let ghost start = available_moves@;
        let (x, y) = loc;
        if (y == 4 && self.color == Color::White) || (y == 3 && self.color == Color::Black) {
            let ny: usize = if self.color == Color::White {
                y + 1
            } else {
                y - 1
            };
            if x > 0 && self.is_en_passant_victim((x - 1, y), board) {
                available_moves.push((x - 1, ny));
            }
            assert(available_moves@ == start + en_passant_side(board@, *self, x as int, y as int, -1));
            let ghost mid = available_moves@;
            if x < 7 && self.is_en_passant_victim((x + 1, y), board) {
                available_moves.push((x + 1, ny));
            }
            assert(available_moves@ == mid + en_passant_side(board@, *self, x as int, y as int, 1));
            assert(available_moves@ =~= start + en_passant_dests(board@, *self, x as int, y as int));
        } else {
            assert(available_moves@ =~= start + en_passant_dests(board@, *self, x as int, y as int));
        }
        available_moves
    }

    /// Whether `at` holds an enemy pawn that has just made a double step onto it.
    fn is_en_passant_victim(&self, at: (usize, usize), board: &Board) -> (r: bool)
        requires
            board.wf(),
            at.0 < 8,
            at.1 < 8,
        ensures
            r == (board@.enemy(at.0 as int, at.1 as int, self.color)
                && board@.grid[at.0 as int][at.1 as int].unwrap().piece_type == PieceType::Pawn
                && board@.double_step == Some(at)),
    {
        match board.piece_at(at.0, at.1) {
            Some(p) => {
                p.color != self.color && p.piece_type == PieceType::Pawn && match board.double_step {
                    Some(d) => d.0 == at.0 && d.1 == at.1,
                    None => false,
                }
            },
            None => false,
        }
    }

    /// The destinations of a queen: any distance along the eight directions.
    pub fn move_queen(&self, loc: (usize, usize), board: &Board) -> (r: Vec<(usize, usize)>)
        requires
            board.wf(),
            loc.0 < 8,
            loc.1 < 8,
        ensures
            r@ == generated(board@, *self, loc.0 as int, loc.1 as int, king_steps()),
    {
        let steps: [(i32, i32); 8] = [(-1, -1), (-1, 0), (0, -1), (-1, 1), (1, -1), (0, 1), (1, 0), (1, 1)];
        assert(steps@ == king_steps());
        self.generate_moves(steps, loc, board)
    }

    /// The destinations along ranks and files.
    pub fn move_rook(&self, loc: (usize, usize), board: &Board) -> (r: Vec<(usize, usize)>)
        requires
            board.wf(),
            loc.0 < 8,
            loc.1 < 8,
        ensures
            r@ == generated(board@, *self, loc.0 as int, loc.1 as int, rook_steps()),
    {
        let steps: [(i32, i32); 8] = [(1, 0), (-1, 0), (0, 1), (0, -1), (0, 0), (0, 0), (0, 0), (0, 0)];
        assert(steps@ == rook_steps());
        self.generate_moves(steps, loc, board)
    }

    /// The destinations that a table of offsets gives this piece on `loc`, direction by direction,
    /// up to the first (0, 0) entry: one step per offset for pawns, knights and kings, a ray
    /// for the others.
    pub fn generate_moves(&self, steps: [(i32, i32); 8], loc: (usize, usize), board: &Board) -> (r: Vec<
        (usize, usize),
    >)
        requires
            board.wf(),
            loc.0 < 8,
            loc.1 < 8,
            small_steps(steps@),
        ensures
            r@ == generated(board@, *self, loc.0 as int, loc.1 as int, steps@),
            all_on_board(r@),
    {
        let ghost x = loc.0 as int;
        let ghost y = loc.1 as int;
        let mut moves: Vec<(usize, usize)> = Vec::new();
        let mut k: usize = 0;
        let mut done = false;
        assert(steps@.subrange(0, 8) =~= steps@);
        assert(moves@ + generated(board@, *self, x, y, steps@) =~= generated(board@, *self, x, y, steps@));
        while k < 8 && !done
            invariant
                0 <= k <= 8,
                board.wf(),
                loc.0 < 8,
                loc.1 < 8,
                x == loc.0,
                y == loc.1,
                small_steps(steps@),
                !done ==> live_before(steps@, k as int),
                !done ==> moves@ + generated(board@, *self, x, y, steps@.subrange(k as int, 8))
                    == generated(board@, *self, x, y, steps@),
                done ==> moves@ == generated(board@, *self, x, y, steps@),
            decreases 8 - k + (if done {
                0int
            } else {
                1int
            }),
        {
            let (dx, dy) = steps[k];
            let ghost rest = steps@.subrange(k as int, 8);
            assert(rest[0] == steps@[k as int]);
            assert(rest.drop_first() =~= steps@.subrange(k + 1, 8));
            if dx == 0 && dy == 0 {
                assert(generated(board@, *self, x, y, rest) == Seq::<(usize, usize)>::empty());
                assert(moves@ + Seq::<(usize, usize)>::empty() =~= moves@);
                done = true;
            } else {
                assert(-8 <= steps@[k as int].0 <= 8 && -8 <= steps@[k as int].1 <= 8);
                let mut d = if self.piece_type == PieceType::Pawn || self.piece_type == PieceType::Knight
                    || self.piece_type == PieceType::King {
                    self.step_moves(dx, dy, loc, board)
                } else {
                    let cdy: i32 = if self.color == Color::White {
                        dy
                    } else {
                        -dy
                    };
                    self.ray_moves(dx, cdy, loc, board)
                };
                let ghost before = moves@;
                moves.append(&mut d);
                assert(live_before(steps@, k + 1));
                assert(moves@ + generated(board@, *self, x, y, steps@.subrange(k + 1, 8)) =~= before
                    + generated(board@, *self, x, y, rest));
                k = k + 1;
            }
        }
        if !done {
            assert(steps@.subrange(8, 8).len() == 0);
            assert(moves@ + Seq::<(usize, usize)>::empty() =~= moves@);
        }
        proof {
            lemma_generated_on_board(board@, *self, x, y, steps@);
        }
        moves
    }

    /// The single destination of a bounded-step piece for one offset, if any.
    fn step_moves(&self, dx: i32, dy: i32, loc: (usize, usize), board: &Board) -> (r: Vec<(usize, usize)>)
        requires
            board.wf(),
            loc.0 < 8,
            loc.1 < 8,
            -8 <= dx <= 8,
            -8 <= dy <= 8,
        ensures
            r@ == step_dest(board@, *self, loc.0 as int, loc.1 as int, dx as int, dy as int),
    {
        let mut moves: Vec<(usize, usize)> = Vec::new();
        let nx: i32 = loc.0 as i32 + dx;
        let ny: i32 = if self.color == Color::White {
            loc.1 as i32 + dy
        } else {
            loc.1 as i32 - dy
        };
        if nx >= 0 && ny >= 0 && nx <= 7 && ny <= 7 {
            let to = (nx as usize, ny as usize);
            if !board.blocked_by_team(to, self.color) {
                let keep = if self.piece_type == PieceType::Pawn {
                    if board.blocked_by_enemy(to, self.color) {
                        dx != 0
                    } else {
                        dx == 0
                    }
                } else {
                    true
                };
                if keep {
                    moves.push(to);
                }
            }
        }
        assert(moves@ =~= step_dest(board@, *self, loc.0 as int, loc.1 as int, dx as int, dy as int));
        moves
    }

    /// The squares along one direction, walked outward up to seven steps.
    fn ray_moves(&self, dx: i32, dy: i32, loc: (usize, usize), board: &Board) -> (r: Vec<(usize, usize)>)
        requires
            board.wf(),
            loc.0 < 8,
            loc.1 < 8,
            -8 <= dx <= 8,
            -8 <= dy <= 8,
        ensures
            r@ == ray(board@, self.color, loc.0 as int, loc.1 as int, dx as int, dy as int, 7),
    {
        let ghost target = ray(board@, self.color, loc.0 as int, loc.1 as int, dx as int, dy as int, 7);
        let mut moves: Vec<(usize, usize)> = Vec::new();
        let mut cx: i32 = loc.0 as i32;
        let mut cy: i32 = loc.1 as i32;
        let mut j: usize = 1;
        let mut done = false;
        assert(moves@ + target =~= target);
        while j < 8 && !done
            invariant
                1 <= j <= 8,
                board.wf(),
                -8 <= dx <= 8,
                -8 <= dy <= 8,
                0 <= cx < 8,
                0 <= cy < 8,
                !done ==> moves@ + ray(board@, self.color, cx as int, cy as int, dx as int, dy as int, (8 - j) as nat)
                    == target,
                done ==> moves@ == target,
            decreases 8 - j + (if done {
                0int
            } else {
                1int
            }),
        {
            let nx: i32 = cx + dx;
            let ny: i32 = cy + dy;
            let ghost rest = ray(board@, self.color, cx as int, cy as int, dx as int, dy as int, (8 - j) as nat);
            if nx < 0 || ny < 0 || nx > 7 || ny > 7 {
                assert(rest == Seq::<(usize, usize)>::empty());
                assert(moves@ + Seq::<(usize, usize)>::empty() =~= moves@);
                done = true;
            } else {
                let to = (nx as usize, ny as usize);
                if board.blocked_by_team(to, self.color) {
                    assert(rest == Seq::<(usize, usize)>::empty());
                    assert(moves@ + Seq::<(usize, usize)>::empty() =~= moves@);
                    done = true;
                } else if board.blocked_by_enemy(to, self.color) {
                    assert(rest == seq![to]);
                    moves.push(to);
                    done = true;
                } else {
                    let ghost before = moves@;
                    moves.push(to);
                    let ghost next = ray(board@, self.color, nx as int, ny as int, dx as int, dy as int, (8 - j - 1) as nat);
                    assert(rest == seq![to] + next);
                    assert(moves@ + next =~= before + rest);
                    cx = nx;
                    cy = ny;
                    j = j + 1;
                }
            }
        }
        if !done {
            assert(moves@ + Seq::<(usize, usize)>::empty() =~= moves@);
        }
        moves
    }
}

/// Every square of the sequence is on the board.
pub open spec fn all_on_board(s: Seq<(usize, usize)>) -> bool {
    forall|k: int| 0 <= k < s.len() ==> (#[trigger] s[k]).0 < 8 && s[k].1 < 8
}

proof fn lemma_concat_on_board(a: Seq<(usize, usize)>, b: Seq<(usize, usize)>)
    requires
        all_on_board(a),
        all_on_board(b),
    ensures
        all_on_board(a + b),
{
    assert forall|k: int| 0 <= k < (a + b).len() implies (#[trigger] (a + b)[k]).0 < 8 && (a + b)[k].1 < 8 by {
        if k < a.len() {
            assert((a + b)[k] == a[k]);
        } else {
            assert((a + b)[k] == b[k - a.len()]);
        }
    }
}

proof fn lemma_ray_on_board(p: Position, c: Color, x: int, y: int, dx: int, dy: int, n: nat)
    ensures
        all_on_board(ray(p, c, x, y, dx, dy, n)),
    decreases n,
{
    if n > 0 {
        let nx = x + dx;
        let ny = y + dy;
        if on_board(nx, ny) && !p.own(nx, ny, c) && !p.enemy(nx, ny, c) {
            lemma_ray_on_board(p, c, nx, ny, dx, dy, (n - 1) as nat);
            lemma_concat_on_board(seq![sq(nx, ny)], ray(p, c, nx, ny, dx, dy, (n - 1) as nat));
        }
    }
}

proof fn lemma_generated_on_board(p: Position, pc: Piece, x: int, y: int, s: Seq<(i32, i32)>)
    ensures
        all_on_board(generated(p, pc, x, y, s)),
    decreases s.len(),
{
    if s.len() > 0 && !(s[0].0 == 0 && s[0].1 == 0) {
        lemma_ray_on_board(p, pc.color, x, y, s[0].0 as int, forward(pc.color, s[0].1 as int), 7);
        lemma_generated_on_board(p, pc, x, y, s.drop_first());
        lemma_concat_on_board(
            direction(p, pc, x, y, s[0].0 as int, s[0].1 as int),
            generated(p, pc, x, y, s.drop_first()),
        );
    }
}

/// Every destination that move generation produces, for any piece on any square, lies within
/// the board.
pub proof fn lemma_pseudo_moves_on_board(p: Position, pc: Piece, x: int, y: int)
    requires
        on_board(x, y),
    ensures
        all_on_board(pseudo_moves(p, pc, x, y)),
{
    lemma_generated_on_board(p, pc, x, y, bishop_steps());
    lemma_generated_on_board(p, pc, x, y, king_steps());
    lemma_generated_on_board(p, pc, x, y, knight_steps());
    lemma_generated_on_board(p, pc, x, y, rook_steps());
    lemma_generated_on_board(p, pc, x, y, pawn_steps());
    let g = generated(p, pc, x, y, pawn_steps());
    let d = double_step_dest(pc, x, y);
    let e = en_passant_dests(p, pc, x, y);
    if en_passant_rank(pc, y) {
        lemma_concat_on_board(en_passant_side(p, pc, x, y, -1), en_passant_side(p, pc, x, y, 1));
    }
    lemma_concat_on_board(g, d);
    lemma_concat_on_board(g + d, e);
}

/// The square `k` steps from (x, y) in direction (dx, dy).
pub open spec fn reach(x: int, y: int, dx: int, dy: int, k: nat) -> (int, int)
    decreases k,
{
    if k == 0 {
        (x, y)
    } else {
        reach(x + dx, y + dy, dx, dy, (k - 1) as nat)
    }
}

/// Whether the first `k` squares from (x, y) in direction (dx, dy) are on the board and empty.
pub open spec fn clear_path(p: Position, x: int, y: int, dx: int, dy: int, k: nat) -> bool
    decreases k,
{
    k == 0 || (on_board(x + dx, y + dy) && p.grid[x + dx][y + dy] is None && clear_path(
        p,
        x + dx,
        y + dy,
        dx,
        dy,
        (k - 1) as nat,
    ))
}

/// The squares of a ray are the consecutive squares along its direction, none of them holding a
/// piece of the mover's side, and all but the last empty.
pub proof fn lemma_ray_shape(p: Position, c: Color, x: int, y: int, dx: int, dy: int, n: nat)
    ensures
        ray(p, c, x, y, dx, dy, n).len() <= n,
        forall|m: int|
            0 <= m < ray(p, c, x, y, dx, dy, n).len() ==> {
                let t = reach(x, y, dx, dy, (m + 1) as nat);
                &&& #[trigger] ray(p, c, x, y, dx, dy, n)[m] == sq(t.0, t.1)
                &&& on_board(t.0, t.1)
                &&& !p.own(t.0, t.1, c)
                &&& m + 1 < ray(p, c, x, y, dx, dy, n).len() ==> p.grid[t.0][t.1] is None
            },
    decreases n,
{
    if n > 0 {
        let nx = x + dx;
        let ny = y + dy;
        assert(reach(x, y, dx, dy, 1) == reach(nx, ny, dx, dy, 0));
        if on_board(nx, ny) && !p.own(nx, ny, c) && !p.enemy(nx, ny, c) {
            assert(p.grid[nx][ny] is None);
            let rest = ray(p, c, nx, ny, dx, dy, (n - 1) as nat);
            lemma_ray_shape(p, c, nx, ny, dx, dy, (n - 1) as nat);
            let r = ray(p, c, x, y, dx, dy, n);
            assert forall|m: int| 0 < m < r.len() implies r[m] == rest[m - 1] by {}
            assert forall|m: int| 0 < m < r.len() implies #[trigger] reach(x, y, dx, dy, (m + 1) as nat) == reach(
                nx,
                ny,
                dx,
                dy,
                m as nat,
            ) by {}
        }
    }
}

/// A ray never goes past the first occupied square in its direction, and holds that square
/// exactly when its piece belongs to the other side.
pub proof fn lemma_ray_first_piece(p: Position, c: Color, x: int, y: int, dx: int, dy: int, n: nat, d: nat)
    requires
        1 <= d <= n,
        clear_path(p, x, y, dx, dy, (d - 1) as nat),
        on_board(reach(x, y, dx, dy, d).0, reach(x, y, dx, dy, d).1),
        p.grid[reach(x, y, dx, dy, d).0][reach(x, y, dx, dy, d).1] is Some,
    ensures
        ray(p, c, x, y, dx, dy, n).len() <= d,
        ray(p, c, x, y, dx, dy, n).contains(sq(reach(x, y, dx, dy, d).0, reach(x, y, dx, dy, d).1))
            <==> p.enemy(reach(x, y, dx, dy, d).0, reach(x, y, dx, dy, d).1, c),
    decreases n,
{
    let nx = x + dx;
    let ny = y + dy;
    let t = reach(x, y, dx, dy, d);
    let r = ray(p, c, x, y, dx, dy, n);
    if d == 1 {
        assert(reach(nx, ny, dx, dy, 0) == (nx, ny));
        if p.enemy(nx, ny, c) {
            assert(r[0] == sq(t.0, t.1));
        }
    } else {
        let rest = ray(p, c, nx, ny, dx, dy, (n - 1) as nat);
        assert(reach(x, y, dx, dy, d) == reach(nx, ny, dx, dy, (d - 1) as nat));
        lemma_ray_first_piece(p, c, nx, ny, dx, dy, (n - 1) as nat, (d - 1) as nat);
        assert(r == seq![sq(nx, ny)] + rest);
        if r.contains(sq(t.0, t.1)) {
            let m = choose|m: int| 0 <= m < r.len() && #[trigger] r[m] == sq(t.0, t.1);
            if m == 0 {
                assert(sq(nx, ny) == sq(t.0, t.1));
                assert(false);
            } else {
                assert(rest[m - 1] == sq(t.0, t.1));
            }
        }
        if rest.contains(sq(t.0, t.1)) {
            let m = choose|m: int| 0 <= m < rest.len() && #[trigger] rest[m] == sq(t.0, t.1);
            assert(r[m + 1] == sq(t.0, t.1));
        }
    }
}

proof fn lemma_concat_contains(a: Seq<(usize, usize)>, b: Seq<(usize, usize)>, t: (usize, usize))
    ensures
        (a + b).contains(t) <==> (a.contains(t) || b.contains(t)),
{
    if (a + b).contains(t) {
        let m = choose|m: int| 0 <= m < (a + b).len() && #[trigger] (a + b)[m] == t;
        if m < a.len() {
            assert(a[m] == t);
        } else {
            assert(b[m - a.len()] == t);
        }
    }
    if a.contains(t) {
        let m = choose|m: int| 0 <= m < a.len() && #[trigger] a[m] == t;
        assert((a + b)[m] == t);
    }
    if b.contains(t) {
        let m = choose|m: int| 0 <= m < b.len() && #[trigger] b[m] == t;
        assert((a + b)[m + a.len()] == t);
    }
}

/// A table generates exactly the squares that its directions before the first (0, 0) entry
/// give: for a sliding piece, the union of their rays, each of which stops at the first occupied
/// square as `lemma_ray_first_piece` states.
pub proof fn lemma_generated_contains(p: Position, pc: Piece, x: int, y: int, s: Seq<(i32, i32)>, t: (usize, usize))
    ensures
        generated(p, pc, x, y, s).contains(t) <==> exists|k: int|
            0 <= k < s.len() && live_before(s, k + 1) && #[trigger] direction(
                p,
                pc,
                x,
                y,
                s[k].0 as int,
                s[k].1 as int,
            ).contains(t),
    decreases s.len(),
{
    if s.len() == 0 || (s[0].0 == 0 && s[0].1 == 0) {
        assert forall|k: int| 0 <= k < s.len() implies !#[trigger] live_before(s, k + 1) by {
            assert(!(s[0].0 == 0 && s[0].1 == 0) || !live_before(s, k + 1));
        }
    } else {
        let rest = s.drop_first();
        let d0 = direction(p, pc, x, y, s[0].0 as int, s[0].1 as int);
        lemma_generated_contains(p, pc, x, y, rest, t);
        lemma_concat_contains(d0, generated(p, pc, x, y, rest), t);
        if generated(p, pc, x, y, s).contains(t) {
            if d0.contains(t) {
                assert(live_before(s, 1));
            } else {
                let k = choose|k: int|
                    0 <= k < rest.len() && live_before(rest, k + 1) && #[trigger] direction(
                        p,
                        pc,
                        x,
                        y,
                        rest[k].0 as int,
                        rest[k].1 as int,
                    ).contains(t);
                assert(rest[k] == s[k + 1]);
                assert forall|m: int| #![trigger s[m]] 0 <= m < k + 2 implies !(s[m].0 == 0 && s[m].1 == 0) by {
                    if m > 0 {
                        assert(rest[m - 1] == s[m]);
                    }
                }
                assert(live_before(s, k + 2));
            }
        }
        if exists|k: int|
            0 <= k < s.len() && live_before(s, k + 1) && #[trigger] direction(
                p,
                pc,
                x,
                y,
                s[k].0 as int,
                s[k].1 as int,
            ).contains(t) {
            let k = choose|k: int|
                0 <= k < s.len() && live_before(s, k + 1) && #[trigger] direction(
                    p,
                    pc,
                    x,
                    y,
                    s[k].0 as int,
                    s[k].1 as int,
                ).contains(t);
            if k > 0 {
                assert(rest[k - 1] == s[k]);
                assert forall|m: int| #![trigger rest[m]] 0 <= m < k implies !(rest[m].0 == 0 && rest[m].1 == 0) by {
                    assert(rest[m] == s[m + 1]);
                }
                assert(live_before(rest, k));
            }
        }
    }
}

} // verus!
