use vstd::prelude::*;

use crate::piece::{
    direction, en_passant_dests, fresh, generated, king_steps, pseudo_moves, sq, step_dest, steps_once, Color, Piece,
    PieceType,
};

verus! {


/// Whether (x, y) names one of the 64 squares.
pub open spec fn on_board(x: int, y: int) -> bool {
    0 <= x < 8 && 0 <= y < 8
}

/// A position as a value: the grid of optional pieces by (file, rank), the destination of every
/// half-move played, and the square of a pawn that has just made a double step.
pub struct Position {
    pub grid: Seq<Seq<Option<Piece>>>,
    pub history: Seq<(usize, usize)>,
    pub double_step: Option<(usize, usize)>,
}

impl Position {
    /// The grid is 8 by 8.
    pub open spec fn wf(self) -> bool {
        &&& self.grid.len() == 8
        &&& forall|i: int| 0 <= i < 8 ==> (#[trigger] self.grid[i]).len() == 8
    }

    /// Whether (x, y) is on the board and holds a piece of side `c`.
    pub open spec fn own(self, x: int, y: int, c: Color) -> bool {
        on_board(x, y) && self.grid[x][y] is Some && self.grid[x][y].unwrap().color == c
    }

    /// Whether (x, y) is on the board and holds a piece of the side opposing `c`.
    pub open spec fn enemy(self, x: int, y: int, c: Color) -> bool {
        on_board(x, y) && self.grid[x][y] is Some && self.grid[x][y].unwrap().color != c
    }

    /// The position with (x, y) holding `v`.
    pub open spec fn set(self, x: int, y: int, v: Option<Piece>) -> Position {
        Position { grid: self.grid.update(x, self.grid[x].update(y, v)), ..self }
    }
}

/// Whether the piece on (i, j) opposes `c` and has `target` among its pseudo-legal destinations.
pub open spec fn attacker_at(p: Position, target: (usize, usize), c: Color, i: int, j: int) -> bool {
    p.enemy(i, j, c) && pseudo_moves(p, p.grid[i][j].unwrap(), i, j).contains(target)
}

/// Whether some piece of the side opposing `c` has `target` among its pseudo-legal destinations.
pub open spec fn attacked(p: Position, target: (usize, usize), c: Color) -> bool {
    exists|i: int, j: int| #[trigger] attacker_at(p, target, c, i, j)
}

/// Whether (i, j) holds a piece of kind `kind` and side `c`.
pub open spec fn holds(p: Position, kind: PieceType, c: Color, i: int, j: int) -> bool {
    on_board(i, j) && p.grid[i][j] is Some && p.grid[i][j].unwrap().piece_type == kind
        && p.grid[i][j].unwrap().color == c
}

/// Whether a king of side `c` stands on an attacked square.
pub open spec fn king_attacked(p: Position, c: Color) -> bool {
    exists|i: int, j: int| #[trigger] holds(p, PieceType::King, c, i, j) && attacked(p, sq(i, j), c)
}

/// The rank on which side `c` starts with its king and rooks.
pub open spec fn home_rank(c: Color) -> int {
    match c {
        Color::White => 0,
        Color::Black => 7,
    }
}

/// Whether file `i` of `c`'s home rank is empty and not attacked.
pub open spec fn passable(p: Position, c: Color, i: int) -> bool {
    p.grid[i][home_rank(c)] is None && !attacked(p, sq(i, home_rank(c)), c)
}

/// Whether castling is open to side `c`, on the king's side and on the queen's side: its king's
/// home square is absent from history, its king is not in check, and every square between the
/// king and that rook is empty and not attacked.
pub open spec fn castling_rights(p: Position, c: Color) -> (bool, bool) {
    if p.history.contains(sq(4, home_rank(c))) || king_attacked(p, c) {
        (false, false)
    } else {
        (
            forall|i: int| 5 <= i < 7 ==> #[trigger] passable(p, c, i),
            forall|i: int| 1 <= i < 4 ==> #[trigger] passable(p, c, i),
        )
    }
}

/// The companion relocation of a castling move: the rook from its corner to beside the king for
/// a king's move, the king from its home square to beside the rook for a rook's move. It happens
/// only when castling that way is open and both pieces stand on their home squares.
pub open spec fn castle_step(p: Position, from: (usize, usize), to: (usize, usize), pc: Piece) -> Position {
    let r = home_rank(pc.color);
    let c = pc.color;
    let (short, long) = castling_rights(p, c);
    if pc.piece_type == PieceType::King && from == sq(4, r) {
        if short && to == sq(6, r) && holds(p, PieceType::Rook, c, 7, r) {
            p.set(5, r, Some(fresh(PieceType::Rook, c))).set(7, r, None)
        } else if long && to == sq(2, r) && holds(p, PieceType::Rook, c, 0, r) {
            p.set(3, r, Some(fresh(PieceType::Rook, c))).set(0, r, None)
        } else {
            p
        }
    } else if pc.piece_type == PieceType::Rook && holds(p, PieceType::King, c, 4, r) {
        if short && from == sq(7, r) && to == sq(5, r) {
            p.set(6, r, Some(fresh(PieceType::King, c))).set(4, r, None)
        } else if long && from == sq(0, r) && to == sq(3, r) {
            p.set(2, r, Some(fresh(PieceType::King, c))).set(4, r, None)
        } else {
            p
        }
    } else {
        p
    }
}

/// Whether the move is a pawn's diagonal step onto an empty square behind an enemy pawn that has
/// just made a double step.
pub open spec fn en_passant_capture(p: Position, from: (usize, usize), to: (usize, usize), pc: Piece) -> bool {
    let v = p.grid[to.0 as int][from.1 as int];
    &&& pc.piece_type == PieceType::Pawn
    &&& from.0 != to.0
    &&& p.grid[to.0 as int][to.1 as int] is None
    &&& p.double_step == Some((to.0, from.1))
    &&& v is Some
    &&& v.unwrap().piece_type == PieceType::Pawn
    &&& v.unwrap().color != pc.color
}

/// Whether the move is a pawn's double step.
pub open spec fn double_step_move(from: (usize, usize), to: (usize, usize), pc: Piece) -> bool {
    pc.piece_type == PieceType::Pawn && from.0 == to.0 && (to.1 == from.1 + 2 || from.1 == to.1 + 2)
}

/// The position after `pc` moves from `from` to `to`: the pawn taken en passant is removed, the
/// castling companion is relocated, the origin is cleared, a fresh piece of the same kind and
/// side is placed on the destination, and the destination is appended to history.
pub open spec fn apply_move(p: Position, from: (usize, usize), to: (usize, usize), pc: Piece) -> Position {
    let taken = if en_passant_capture(p, from, to, pc) {
        p.set(to.0 as int, from.1 as int, None)
    } else {
        p
    };
    let castled = castle_step(taken, from, to, pc);
    let placed = castled.set(from.0 as int, from.1 as int, None).set(
        to.0 as int,
        to.1 as int,
        Some(fresh(pc.piece_type, pc.color)),
    );
    Position {
        grid: placed.grid,
        history: placed.history.push(to),
        double_step: if double_step_move(from, to, pc) {
            Some(to)
        } else {
            None
        },
    }
}

/// The castling destinations offered to the king on its home square, with its rook in the
/// corner, or to a rook in its corner, with the king on its home square.
pub open spec fn castle_offers(p: Position, from: (usize, usize), pc: Piece) -> Seq<(usize, usize)> {
    let r = home_rank(pc.color);
    let c = pc.color;
    let (short, long) = castling_rights(p, c);
    if pc.piece_type == PieceType::King && from == sq(4, r) {
        (if short && holds(p, PieceType::Rook, c, 7, r) {
            seq![sq(6, r)]
        } else {
            seq![]
        }) + (if long && holds(p, PieceType::Rook, c, 0, r) {
            seq![sq(2, r)]
        } else {
            seq![]
        })
    } else if pc.piece_type == PieceType::Rook && from == sq(7, r) && short && holds(p, PieceType::King, c, 4, r) {
        seq![sq(5, r)]
    } else if pc.piece_type == PieceType::Rook && from == sq(0, r) && long && holds(p, PieceType::King, c, 4, r) {
        seq![sq(3, r)]
    } else {
        seq![]
    }
}

/// The pseudo-legal destinations with the castling offers.
pub open spec fn candidates(p: Position, from: (usize, usize), pc: Piece) -> Seq<(usize, usize)> {
    pseudo_moves(p, pc, from.0 as int, from.1 as int) + castle_offers(p, from, pc)
}

/// Whether side `c` has a king on the board.
pub open spec fn has_king(p: Position, c: Color) -> bool {
    exists|i: int, j: int| #[trigger] holds(p, PieceType::King, c, i, j)
}

/// Whether side `c` has a king and no king of it is attacked.
pub open spec fn king_safe(p: Position, c: Color) -> bool {
    has_king(p, c) && !king_attacked(p, c)
}

/// Whether `to` is a legal destination of `pc` on `from`: a candidate after which the mover
/// still has a king and that king is not attacked.
pub open spec fn legal(p: Position, from: (usize, usize), pc: Piece, to: (usize, usize)) -> bool {
    candidates(p, from, pc).contains(to) && king_safe(apply_move(p, from, to, pc), pc.color)
}

/// Whether side `c` may move the piece on `from` to `to`.
pub open spec fn move_accepted(p: Position, from: (usize, usize), to: (usize, usize), c: Color) -> bool {
    let o = p.grid[from.0 as int][from.1 as int];
    o is Some && o.unwrap().color == c && legal(p, from, o.unwrap(), to)
}

/// The position after side `c` asks to move `from` to `to`: the move applied if it is accepted,
/// the same position otherwise.
pub open spec fn after_move(p: Position, from: (usize, usize), to: (usize, usize), c: Color) -> Position {
    if move_accepted(p, from, to, c) {
        apply_move(p, from, to, p.grid[from.0 as int][from.1 as int].unwrap())
    } else {
        p
    }
}

/// Whether the piece on (i, j) belongs to side `c` and has a legal destination.
pub open spec fn movable(p: Position, c: Color, i: int, j: int) -> bool {
    p.own(i, j, c) && exists|t: (usize, usize)| #[trigger] legal(p, sq(i, j), p.grid[i][j].unwrap(), t)
}

/// Whether no piece of side `c` has a legal destination.
pub open spec fn no_legal_moves(p: Position, c: Color) -> bool {
    forall|i: int, j: int| !#[trigger] movable(p, c, i, j)
}

/// The kind standing on file `i` of a home rank at the start.
pub open spec fn back_rank_kind(i: int) -> PieceType {
    if i == 0 || i == 7 {
        PieceType::Rook
    } else if i == 1 || i == 6 {
        PieceType::Knight
    } else if i == 2 || i == 5 {
        PieceType::Bishop
    } else if i == 3 {
        PieceType::Queen
    } else {
        PieceType::King
    }
}

/// What (i, j) holds in the starting position.
pub open spec fn start_square(i: int, j: int) -> Option<Piece> {
    if j == 1 {
        Some(fresh(PieceType::Pawn, Color::White))
    } else if j == 6 {
        Some(fresh(PieceType::Pawn, Color::Black))
    } else if j == 0 {
        Some(fresh(back_rank_kind(i), Color::White))
    } else if j == 7 {
        Some(fresh(back_rank_kind(i), Color::Black))
    } else {
        None
    }
}

/// Setting a square keeps the grid 8 by 8.
pub proof fn lemma_set_wf(p: Position, x: int, y: int, v: Option<Piece>)
    requires
        p.wf(),
        on_board(x, y),
    ensures
        p.set(x, y, v).wf(),
        p.set(x, y, v).grid[x][y] == v,
        forall|i: int, j: int|
            on_board(i, j) && (i != x || j != y) ==> #[trigger] p.set(x, y, v).grid[i][j] == p.grid[i][j],
{
    assert forall|i: int| 0 <= i < 8 implies (#[trigger] p.set(x, y, v).grid[i]).len() == 8 by {
        assert(p.grid[i].len() == 8);
    }
}

/// Castling's companion relocation keeps the grid 8 by 8.
pub proof fn lemma_castle_step_wf(p: Position, from: (usize, usize), to: (usize, usize), pc: Piece)
    requires
        p.wf(),
    ensures
        castle_step(p, from, to, pc).wf(),
        castle_step(p, from, to, pc).history == p.history,
{
    let r = home_rank(pc.color);
    lemma_set_wf(p, 5, r, Some(fresh(PieceType::Rook, pc.color)));
    lemma_set_wf(p.set(5, r, Some(fresh(PieceType::Rook, pc.color))), 7, r, None);
    lemma_set_wf(p, 3, r, Some(fresh(PieceType::Rook, pc.color)));
    lemma_set_wf(p.set(3, r, Some(fresh(PieceType::Rook, pc.color))), 0, r, None);
    lemma_set_wf(p, 6, r, Some(fresh(PieceType::King, pc.color)));
    lemma_set_wf(p.set(6, r, Some(fresh(PieceType::King, pc.color))), 4, r, None);
    lemma_set_wf(p, 2, r, Some(fresh(PieceType::King, pc.color)));
    lemma_set_wf(p.set(2, r, Some(fresh(PieceType::King, pc.color))), 4, r, None);
}

/// Applying a move keeps the grid 8 by 8 and leaves a fresh piece of the mover's kind and side
/// on the destination.
pub proof fn lemma_apply_move_destination(p: Position, from: (usize, usize), to: (usize, usize), pc: Piece)
    requires
        p.wf(),
        from.0 < 8,
        from.1 < 8,
        to.0 < 8,
        to.1 < 8,
    ensures
        apply_move(p, from, to, pc).wf(),
        apply_move(p, from, to, pc).grid[to.0 as int][to.1 as int] == Some(fresh(pc.piece_type, pc.color)),
        apply_move(p, from, to, pc).history == p.history.push(to),
{
    let taken = if en_passant_capture(p, from, to, pc) {
        p.set(to.0 as int, from.1 as int, None)
    } else {
        p
    };
    lemma_set_wf(p, to.0 as int, from.1 as int, None);
    lemma_castle_step_wf(taken, from, to, pc);
    let castled = castle_step(taken, from, to, pc);
    lemma_set_wf(castled, from.0 as int, from.1 as int, None);
    lemma_set_wf(castled.set(from.0 as int, from.1 as int, None), to.0 as int, to.1 as int, Some(fresh(pc.piece_type, pc.color)));
}

/// After a move is accepted, the destination holds a piece of the kind and side that stood on the
/// origin before the move.
pub proof fn lemma_destination_holds_mover(p: Position, from: (usize, usize), to: (usize, usize), c: Color)
    requires
        p.wf(),
        from.0 < 8,
        from.1 < 8,
        to.0 < 8,
        to.1 < 8,
        move_accepted(p, from, to, c),
    ensures
        after_move(p, from, to, c).grid[to.0 as int][to.1 as int] == Some(
            fresh(p.grid[from.0 as int][from.1 as int].unwrap().piece_type, p.grid[from.0 as int][from.1 as int].unwrap().color),
        ),
        p.grid[from.0 as int][from.1 as int].unwrap().color == c,
{
    lemma_apply_move_destination(p, from, to, p.grid[from.0 as int][from.1 as int].unwrap());
}

/// After a move is accepted, the mover's king is not attacked.
pub proof fn lemma_accepted_move_leaves_king_safe(p: Position, from: (usize, usize), to: (usize, usize), c: Color)
    requires
        move_accepted(p, from, to, c),
    ensures
        !king_attacked(after_move(p, from, to, c), c),
        has_king(after_move(p, from, to, c), c),
{
}

/// A rejected move changes nothing, so asking for it again changes nothing either.
pub proof fn lemma_rejection_idempotent(p: Position, from: (usize, usize), to: (usize, usize), c: Color)
    requires
        !move_accepted(p, from, to, c),
    ensures
        after_move(p, from, to, c) == p,
        after_move(after_move(p, from, to, c), from, to, c) == p,
{
}

/// After any move, an en-passant capture is open only when that move was a pawn's double step
/// onto the square beside the capturing pawn.
pub proof fn lemma_en_passant_window(
    p: Position,
    from: (usize, usize),
    to: (usize, usize),
    pc: Piece,
    q: Piece,
    x: int,
    y: int,
)
    ensures
        en_passant_dests(apply_move(p, from, to, pc), q, x, y).len() > 0 ==> double_step_move(from, to, pc) && (to
            == sq(x - 1, y) || to == sq(x + 1, y)),
{
}

/// An en-passant capture removes the pawn that has just made its double step and nothing else:
/// the destination receives the capturing pawn, the origin is cleared, and every other square
/// keeps its piece.
pub proof fn lemma_en_passant_removes_victim(p: Position, from: (usize, usize), to: (usize, usize), pc: Piece)
    requires
        p.wf(),
        from.0 < 8,
        from.1 < 8,
        to.0 < 8,
        to.1 < 8,
        from.1 != to.1,
        en_passant_capture(p, from, to, pc),
    ensures
        ({
            let q = apply_move(p, from, to, pc);
            &&& q.grid[to.0 as int][from.1 as int] is None
            &&& q.grid[to.0 as int][to.1 as int] == Some(fresh(PieceType::Pawn, pc.color))
            &&& q.grid[from.0 as int][from.1 as int] is None
            &&& forall|i: int, j: int|
                on_board(i, j) && (i, j) != (to.0 as int, from.1 as int) && (i, j) != (from.0 as int, from.1 as int)
                    && (i, j) != (to.0 as int, to.1 as int) ==> #[trigger] q.grid[i][j] == p.grid[i][j]
        }),
{
    let taken = p.set(to.0 as int, from.1 as int, None);
    lemma_set_wf(p, to.0 as int, from.1 as int, None);
    assert(castle_step(taken, from, to, pc) == taken);
    let castled = taken.set(from.0 as int, from.1 as int, None);
    lemma_set_wf(taken, from.0 as int, from.1 as int, None);
    lemma_set_wf(castled, to.0 as int, to.1 as int, Some(fresh(pc.piece_type, pc.color)));
}

/// Every square of the sequence lies on a file next to or equal to `x`.
pub open spec fn near_file(s: Seq<(usize, usize)>, x: int) -> bool {
    forall|k: int| 0 <= k < s.len() ==> x - 1 <= #[trigger] s[k].0 <= x + 1
}

proof fn lemma_near_file_concat(a: Seq<(usize, usize)>, b: Seq<(usize, usize)>, x: int)
    requires
        near_file(a, x),
        near_file(b, x),
    ensures
        near_file(a + b, x),
{
    assert forall|k: int| 0 <= k < (a + b).len() implies x - 1 <= #[trigger] (a + b)[k].0 <= x + 1 by {
        if k < a.len() {
            assert((a + b)[k] == a[k]);
        } else {
            assert((a + b)[k] == b[k - a.len()]);
        }
    }
}

proof fn lemma_single_steps_near(p: Position, pc: Piece, x: int, y: int, s: Seq<(i32, i32)>)
    requires
        steps_once(pc.piece_type),
        forall|k: int| 0 <= k < s.len() ==> -1 <= #[trigger] s[k].0 <= 1,
    ensures
        near_file(generated(p, pc, x, y, s), x),
    decreases s.len(),
{
    if s.len() > 0 && !(s[0].0 == 0 && s[0].1 == 0) {
        let d = direction(p, pc, x, y, s[0].0 as int, s[0].1 as int);
        assert(d == step_dest(p, pc, x, y, s[0].0 as int, s[0].1 as int));
        assert(near_file(d, x));
        let rest = s.drop_first();
        assert forall|k: int| 0 <= k < rest.len() implies -1 <= #[trigger] rest[k].0 <= 1 by {
            assert(rest[k] == s[k + 1]);
        }
        lemma_single_steps_near(p, pc, x, y, rest);
        lemma_near_file_concat(d, generated(p, pc, x, y, rest), x);
    }
}

/// A king on its home square is offered the square two files towards a rook exactly when
/// castling to that side is open and its rook stands in that corner.
pub proof fn lemma_castling_offered(p: Position, king: Piece)
    requires
        king.piece_type == PieceType::King,
    ensures
        ({
            let r = home_rank(king.color);
            let cands = candidates(p, sq(4, r), king);
            &&& cands.contains(sq(6, r)) <==> (castling_rights(p, king.color).0 && holds(
                p,
                PieceType::Rook,
                king.color,
                7,
                r,
            ))
            &&& cands.contains(sq(2, r)) <==> (castling_rights(p, king.color).1 && holds(
                p,
                PieceType::Rook,
                king.color,
                0,
                r,
            ))
        }),
{
    let r = home_rank(king.color);
    let ks = king_steps();
    assert forall|k: int| 0 <= k < ks.len() implies -1 <= #[trigger] ks[k].0 <= 1 by {}
    lemma_single_steps_near(p, king, 4, r, ks);
    let ps = pseudo_moves(p, king, 4, r);
    let offers = castle_offers(p, sq(4, r), king);
    let cands = candidates(p, sq(4, r), king);
    assert(cands == ps + offers);
    let short = castling_rights(p, king.color).0 && holds(p, PieceType::Rook, king.color, 7, r);
    let long = castling_rights(p, king.color).1 && holds(p, PieceType::Rook, king.color, 0, r);
    let a: Seq<(usize, usize)> = if short {
        seq![sq(6, r)]
    } else {
        seq![]
    };
    let b: Seq<(usize, usize)> = if long {
        seq![sq(2, r)]
    } else {
        seq![]
    };
    assert(offers == a + b);
    assert forall|t: (usize, usize)| t == sq(6, r) || t == sq(2, r) implies (cands.contains(t) <==> offers.contains(t)) by {
        if cands.contains(t) {
            let m = choose|m: int| 0 <= m < cands.len() && #[trigger] cands[m] == t;
            if m < ps.len() {
                assert(ps[m] == t);
                assert(3 <= ps[m].0 <= 5);
            } else {
                assert(offers[m - ps.len()] == t);
            }
        }
        if offers.contains(t) {
            let m = choose|m: int| 0 <= m < offers.len() && #[trigger] offers[m] == t;
            assert(cands[m + ps.len()] == t);
        }
    }
    if short {
        assert(offers[0] == sq(6, r));
    }
    if long {
        assert(offers[offers.len() - 1] == sq(2, r));
    }
    if offers.contains(sq(6, r)) {
        let m = choose|m: int| 0 <= m < offers.len() && #[trigger] offers[m] == sq(6, r);
        if m < a.len() {
        } else {
            assert(b[m - a.len()] == sq(6, r));
        }
    }
    if offers.contains(sq(2, r)) {
        let m = choose|m: int| 0 <= m < offers.len() && #[trigger] offers[m] == sq(2, r);
        if m < a.len() {
            assert(a[m] == sq(2, r));
        }
    }
}

/// Which castling relocation a move makes: 1 and 2 for a king's move to the king's or the queen's
/// side, 3 and 4 for a rook's, 0 for none.
pub open spec fn castle_kind(p: Position, from: (usize, usize), to: (usize, usize), pc: Piece) -> int {
    let r = home_rank(pc.color);
    let c = pc.color;
    let (short, long) = castling_rights(p, c);
    if pc.piece_type == PieceType::King && from == sq(4, r) {
        if short && to == sq(6, r) && holds(p, PieceType::Rook, c, 7, r) {
            1
        } else if long && to == sq(2, r) && holds(p, PieceType::Rook, c, 0, r) {
            2
        } else {
            0
        }
    } else if pc.piece_type == PieceType::Rook && holds(p, PieceType::King, c, 4, r) {
        if short && from == sq(7, r) && to == sq(5, r) {
            3
        } else if long && from == sq(0, r) && to == sq(3, r) {
            4
        } else {
            0
        }
    } else {
        0
    }
}

/// What (a, b) holds after `pc` moves from `from` to `to`, square by square.
pub open spec fn square_after(p: Position, from: (usize, usize), to: (usize, usize), pc: Piece, a: int, b: int) -> Option<
    Piece,
> {
    let r = home_rank(pc.color);
    let c = pc.color;
    let k = castle_kind(p, from, to, pc);
    if a == to.0 && b == to.1 {
        Some(fresh(pc.piece_type, c))
    } else if a == from.0 && b == from.1 {
        None
    } else if en_passant_capture(p, from, to, pc) && a == to.0 && b == from.1 {
        None
    } else if b == r && ((k == 1 && a == 5) || (k == 2 && a == 3)) {
        Some(fresh(PieceType::Rook, c))
    } else if b == r && ((k == 1 && a == 7) || (k == 2 && a == 0) || ((k == 3 || k == 4) && a == 4)) {
        None
    } else if b == r && ((k == 3 && a == 6) || (k == 4 && a == 2)) {
        Some(fresh(PieceType::King, c))
    } else {
        p.grid[a][b]
    }
}

proof fn lemma_apply_move_squares(p: Position, from: (usize, usize), to: (usize, usize), pc: Piece)
    requires
        p.wf(),
        from.0 < 8,
        from.1 < 8,
        to.0 < 8,
        to.1 < 8,
    ensures
        forall|a: int, b: int|
            on_board(a, b) ==> #[trigger] apply_move(p, from, to, pc).grid[a][b] == square_after(p, from, to, pc, a, b),
{
    let r = home_rank(pc.color);
    let c = pc.color;
    let ep = en_passant_capture(p, from, to, pc);
    let taken = if ep {
        p.set(to.0 as int, from.1 as int, None)
    } else {
        p
    };
    lemma_set_wf(p, to.0 as int, from.1 as int, None);
    let k = castle_kind(p, from, to, pc);
    if ep {
        assert(castle_step(taken, from, to, pc) == taken);
        assert(k == 0);
    } else {
        assert(taken == p);
    }
    let rook = Some(fresh(PieceType::Rook, c));
    let king = Some(fresh(PieceType::King, c));
    lemma_set_wf(taken, 5, r, rook);
    lemma_set_wf(taken.set(5, r, rook), 7, r, None);
    lemma_set_wf(taken, 3, r, rook);
    lemma_set_wf(taken.set(3, r, rook), 0, r, None);
    lemma_set_wf(taken, 6, r, king);
    lemma_set_wf(taken.set(6, r, king), 4, r, None);
    lemma_set_wf(taken, 2, r, king);
    lemma_set_wf(taken.set(2, r, king), 4, r, None);
    lemma_castle_step_wf(taken, from, to, pc);
    let castled = castle_step(taken, from, to, pc);
    lemma_set_wf(castled, from.0 as int, from.1 as int, None);
    let mid = castled.set(from.0 as int, from.1 as int, None);
    lemma_set_wf(mid, to.0 as int, to.1 as int, Some(fresh(pc.piece_type, c)));
    assert forall|a: int, b: int| on_board(a, b) implies #[trigger] apply_move(p, from, to, pc).grid[a][b]
        == square_after(p, from, to, pc, a, b) by {
        assert(apply_move(p, from, to, pc).grid == mid.set(to.0 as int, to.1 as int, Some(fresh(pc.piece_type, c))).grid);
        if !(a == to.0 && b == to.1) && !(a == from.0 && b == from.1) {
            assert(apply_move(p, from, to, pc).grid[a][b] == castled.grid[a][b]);
        }
    }
}

/// Whether side `c` has exactly one king.
pub open spec fn one_king(p: Position, c: Color) -> bool {
    exists|i: int, j: int|
        #[trigger] holds(p, PieceType::King, c, i, j) && forall|a: int, b: int|
            #[trigger] holds(p, PieceType::King, c, a, b) ==> a == i && b == j
}

/// Every castling destination offered is an empty square.
proof fn lemma_castle_offers_empty(p: Position, from: (usize, usize), pc: Piece, t: (usize, usize))
    requires
        castle_offers(p, from, pc).contains(t),
    ensures
        p.grid[t.0 as int][t.1 as int] is None,
{
    let r = home_rank(pc.color);
    let c = pc.color;
    let (short, long) = castling_rights(p, c);
    let o = castle_offers(p, from, pc);
    let m = choose|m: int| 0 <= m < o.len() && #[trigger] o[m] == t;
    if short {
        assert(passable(p, c, 5) && passable(p, c, 6));
    }
    if long {
        assert(passable(p, c, 2) && passable(p, c, 3));
    }
    if pc.piece_type == PieceType::King && from == sq(4, r) {
        let a: Seq<(usize, usize)> = if short && holds(p, PieceType::Rook, c, 7, r) {
            seq![sq(6, r)]
        } else {
            seq![]
        };
        let b: Seq<(usize, usize)> = if long && holds(p, PieceType::Rook, c, 0, r) {
            seq![sq(2, r)]
        } else {
            seq![]
        };
        assert(o == a + b);
        if m < a.len() {
            assert(a[m] == t);
        } else {
            assert(b[m - a.len()] == t);
        }
    }
}

/// An accepted move keeps exactly one king on each side, when each side had exactly one king
/// before and the king of the side not moving was not attacked.
pub proof fn lemma_accepted_move_keeps_one_king(p: Position, from: (usize, usize), to: (usize, usize), c: Color)
    requires
        p.wf(),
        from.0 < 8,
        from.1 < 8,
        to.0 < 8,
        to.1 < 8,
        one_king(p, Color::White),
        one_king(p, Color::Black),
        !king_attacked(p, c.opponent()),
        move_accepted(p, from, to, c),
    ensures
        one_king(after_move(p, from, to, c), Color::White),
        one_king(after_move(p, from, to, c), Color::Black),
{
    let pc = p.grid[from.0 as int][from.1 as int].unwrap();
    let q = apply_move(p, from, to, pc);
    assert(after_move(p, from, to, c) == q);
    let o = c.opponent();
    let r = home_rank(c);
    let k = castle_kind(p, from, to, pc);
    lemma_apply_move_squares(p, from, to, pc);
    if k == 1 || k == 3 {
        assert(castling_rights(p, c).0);
        assert(passable(p, c, 5) && passable(p, c, 6));
    }
    if k == 2 || k == 4 {
        assert(castling_rights(p, c).1);
        assert(passable(p, c, 2) && passable(p, c, 3));
    }
    assert(c != o);
    assert(one_king(p, c) && one_king(p, o)) by {
        if c == Color::White {
        } else {
        }
    }
    let (ki, kj) = choose|i: int, j: int|
        #[trigger] holds(p, PieceType::King, c, i, j) && forall|a: int, b: int|
            #[trigger] holds(p, PieceType::King, c, a, b) ==> a == i && b == j;
    let (oi, oj) = choose|i: int, j: int|
        #[trigger] holds(p, PieceType::King, o, i, j) && forall|a: int, b: int|
            #[trigger] holds(p, PieceType::King, o, a, b) ==> a == i && b == j;
    // The destination never held the other side's king: a pseudo-legal destination would attack
    // it, and a castling destination is empty.
    assert(!(oi == to.0 && oj == to.1)) by {
        if oi == to.0 && oj == to.1 {
            let ps = pseudo_moves(p, pc, from.0 as int, from.1 as int);
            let offers = castle_offers(p, from, pc);
            let cands = candidates(p, from, pc);
            let m = choose|m: int| 0 <= m < cands.len() && #[trigger] cands[m] == to;
            if m < ps.len() {
                assert(ps[m] == to);
                assert(ps.contains(to));
                assert(attacker_at(p, to, o, from.0 as int, from.1 as int));
                assert(sq(oi, oj) == to);
                assert(attacked(p, sq(oi, oj), o));
                assert(king_attacked(p, o));
            } else {
                assert(offers[m - ps.len()] == to);
                lemma_castle_offers_empty(p, from, pc, to);
            }
        }
    }
    // The other side keeps its king where it stood, and gains none.
    assert(one_king(q, o)) by {
        assert(holds(q, PieceType::King, o, oi, oj));
        assert forall|a: int, b: int| #[trigger] holds(q, PieceType::King, o, a, b) implies a == oi && b == oj by {
            assert(holds(p, PieceType::King, o, a, b));
        }
    }
    // The mover's king is wherever the move put it.
    let (ni, nj) = choose|i: int, j: int| #[trigger] holds(q, PieceType::King, c, i, j);
    let landing: (int, int) = if pc.piece_type == PieceType::King {
        (to.0 as int, to.1 as int)
    } else if k == 3 {
        (6, r)
    } else if k == 4 {
        (2, r)
    } else {
        (ki, kj)
    };
    assert forall|a: int, b: int| #[trigger] holds(q, PieceType::King, c, a, b) implies a == landing.0 && b
        == landing.1 by {
        if pc.piece_type == PieceType::King {
            assert(holds(p, PieceType::King, c, from.0 as int, from.1 as int));
            if !(a == to.0 && b == to.1) {
                assert(!(a == from.0 && b == from.1));
                assert(holds(p, PieceType::King, c, a, b));
            }
        } else if k == 3 || k == 4 {
            assert(holds(p, PieceType::King, c, 4, r));
            if !(b == r && ((k == 3 && a == 6) || (k == 4 && a == 2))) {
                assert(holds(p, PieceType::King, c, a, b));
            }
        } else {
            assert(holds(p, PieceType::King, c, a, b));
        }
    }
    assert(one_king(q, c)) by {
        assert(ni == landing.0 && nj == landing.1);
    }
    if c == Color::White {
    } else {
    }
}

} // verus!
