use vstd::prelude::*;

use crate::game::{format_input, parsed_square};
use crate::piece::{all_on_board, fresh, lemma_pseudo_moves_on_board, pseudo_moves, sq, Color, Piece, PieceType};
use crate::position::{
    after_move, apply_move, attacked, attacker_at, back_rank_kind, candidates, castle_offers, castle_step,
    castling_rights, en_passant_capture, holds, home_rank, king_attacked, king_safe, legal, movable, move_accepted,
    no_legal_moves, on_board, passable, start_square, Position,
};

verus! {

proof fn lemma_push_contains(s: Seq<(usize, usize)>, x: (usize, usize), u: (usize, usize))
    ensures
        s.push(x).contains(u) <==> (s.contains(u) || u == x),
{
    if s.push(x).contains(u) {
        let m = choose|m: int| 0 <= m < s.push(x).len() && #[trigger] s.push(x)[m] == u;
        if m < s.len() {
            assert(s[m] == u);
        }
    }
    if s.contains(u) {
        let m = choose|m: int| 0 <= m < s.len() && #[trigger] s[m] == u;
        assert(s.push(x)[m] == u);
    }
    if u == x {
        assert(s.push(x)[s.len() as int] == u);
    }
}

/// Whether `v` holds `t`.
fn contains_square(v: &Vec<(usize, usize)>, t: (usize, usize)) -> (r: bool)
    ensures
        r == v@.contains(t),
{
    let mut k: usize = 0;
    while k < v.len()
        invariant
            k <= v@.len(),
            forall|m: int| 0 <= m < k ==> v@[m] != t,
        decreases v@.len() - k,
    {
        if v[k].0 == t.0 && v[k].1 == t.1 {
            return true;
        }
        k = k + 1;
    }
    false
}

/// Why a move asked for by notation was refused.
#[derive(Debug, Clone, Copy, PartialEq, Eq, Structural)]
pub enum MoveError {
    /// The destination is not among the piece's legal destinations, or it has none.
    InvalidMove,
    /// The origin does not hold a piece of the kind and side claimed.
    OriginMismatch,
}

/// Whether the square `s` names holds a piece of its kind and of side `c`.
pub open spec fn origin_matches(p: Position, s: (usize, usize, PieceType), c: Color) -> bool {
    let o = p.grid[s.0 as int][s.1 as int];
    o is Some && o.unwrap().piece_type == s.2 && o.unwrap().color == c
}

/// One square of the board.
#[derive(Clone, Copy, Debug)]
pub struct Square {
    pub piece: Option<Piece>,
}

/// The 8x8 grid, indexed by file then rank, with the history of move destinations.
#[derive(Debug)]
pub struct Board {
    pub board_squares: Vec<Vec<Square>>,
    pub history: Vec<(usize, usize)>,
    pub double_step: Option<(usize, usize)>,
}

impl View for Board {
    type V = Position;

    open spec fn view(&self) -> Position {
        Position {
            grid: self.board_squares@.map_values(|row: Vec<Square>| row@.map_values(|s: Square| s.piece)),
            history: self.history@,
            double_step: self.double_step,
        }
    }
}

impl Board {
    /// The grid is 8 by 8.
    pub open spec fn wf(&self) -> bool {
        &&& self.board_squares@.len() == 8
        &&& forall|i: int| 0 <= i < 8 ==> (#[trigger] self.board_squares@[i])@.len() == 8
    }

    /// The piece on (x, y).
    pub fn piece_at(&self, x: usize, y: usize) -> (r: Option<Piece>)
        requires
            self.wf(),
            x < 8,
            y < 8,
        ensures
            r == self@.grid[x as int][y as int],
    {
        self.board_squares[x][y].piece
    }

    /// Puts `v` on (x, y).
    pub fn set_piece(&mut self, x: usize, y: usize, v: Option<Piece>)
        requires
            old(self).wf(),
            x < 8,
            y < 8,
        ensures
            final(self).wf(),
            final(self)@ == old(self)@.set(x as int, y as int, v),
    {
        let ghost before = self@;
        let mut row: Vec<Square> = Vec::new();
        let mut j: usize = 0;
        while j < 8
            invariant
                self.wf(),
                self@ == before,
                x < 8,
                y < 8,
                j <= 8,
                row@.len() == j,
                forall|k: int| 0 <= k < j ==> (#[trigger] row@[k]).piece == (if k == y { v } else {
                    before.grid[x as int][k]
                }),
            decreases 8 - j,
        {
            if j == y {
                row.push(Square { piece: v });
            } else {
                row.push(Square { piece: self.board_squares[x][j].piece });
            }
            j = j + 1;
        }
        self.board_squares.set(x, row);
        assert(self@.grid[x as int] =~= before.grid[x as int].update(y as int, v));
        assert(self@.grid =~= before.grid.update(x as int, before.grid[x as int].update(y as int, v)));
    }

    /// A copy of the board, used to try a move without touching this one.
    pub fn duplicate(&self) -> (r: Board)
        requires
            self.wf(),
        ensures
            r.wf(),
            r@ == self@,
    {
        let mut rows: Vec<Vec<Square>> = Vec::new();
        let mut i: usize = 0;
        while i < 8
            invariant
                self.wf(),
                i <= 8,
                rows@.len() == i,
                forall|k: int| 0 <= k < i ==> (#[trigger] rows@[k])@.len() == 8,
                forall|k: int, l: int|
                    0 <= k < i && 0 <= l < 8 ==> (#[trigger] rows@[k]@[l]).piece == self@.grid[k][l],
            decreases 8 - i,
        {
            let mut row: Vec<Square> = Vec::new();
            let mut j: usize = 0;
            while j < 8
                invariant
                    self.wf(),
                    i < 8,
                    j <= 8,
                    row@.len() == j,
                    forall|l: int| 0 <= l < j ==> (#[trigger] row@[l]).piece == self@.grid[i as int][l],
                decreases 8 - j,
            {
                row.push(Square { piece: self.board_squares[i][j].piece });
                j = j + 1;
            }
            rows.push(row);
            i = i + 1;
        }
        let mut history: Vec<(usize, usize)> = Vec::new();
        let mut h: usize = 0;
        while h < self.history.len()
            invariant
                h <= self.history@.len(),
                history@ == self.history@.subrange(0, h as int),
            decreases self.history@.len() - h,
        {
            history.push(self.history[h]);
            h = h + 1;
            assert(history@ =~= self.history@.subrange(0, h as int));
        }
        assert(history@ =~= self.history@);
        let r = Board { board_squares: rows, history, double_step: self.double_step };
        assert forall|k: int| 0 <= k < 8 implies (#[trigger] r@.grid[k]) =~= self@.grid[k] by {
            assert(r.board_squares@[k]@.len() == 8);
            assert(self.board_squares@[k]@.len() == 8);
        }
        assert(r@.grid =~= self@.grid);
        r
    }

    /// Whether `loc` holds a piece of side `player_color`.
    pub fn blocked_by_team(&self, loc: (usize, usize), player_color: Color) -> (r: bool)
        requires
            self.wf(),
            loc.0 < 8,
            loc.1 < 8,
        ensures
            r == self@.own(loc.0 as int, loc.1 as int, player_color),
    {
        match self.board_squares[loc.0][loc.1].piece {
            Some(piece) => piece.color == player_color,
            None => false,
        }
    }

    /// Whether `loc` holds a piece of the side opposing `player_color`.
    pub fn blocked_by_enemy(&self, loc: (usize, usize), player_color: Color) -> (r: bool)
        requires
            self.wf(),
            loc.0 < 8,
            loc.1 < 8,
        ensures
            r == self@.enemy(loc.0 as int, loc.1 as int, player_color),
    {
        match self.board_squares[loc.0][loc.1].piece {
            Some(piece) => piece.color != player_color,
            None => false,
        }
    }
}

impl Board {
    /// Whether some piece of the side opposing `player_color` has `loc` among its pseudo-legal
    /// destinations.
    pub fn is_square_attacked(&self, loc: (usize, usize), player_color: Color) -> (r: bool)
        requires
            self.wf(),
            loc.0 < 8,
            loc.1 < 8,
        ensures
            r == attacked(self@, loc, player_color),
    {
        let mut found = false;
        let mut i: usize = 0;
        while i < 8
            invariant
                self.wf(),
                loc.0 < 8,
                loc.1 < 8,
                i <= 8,
                found ==> attacked(self@, loc, player_color),
                !found ==> forall|a: int, b: int|
                    0 <= a < i && 0 <= b < 8 ==> !#[trigger] attacker_at(self@, loc, player_color, a, b),
            decreases 8 - i,
        {
            let mut j: usize = 0;
            while j < 8
                invariant
                    self.wf(),
                    loc.0 < 8,
                    loc.1 < 8,
                    i < 8,
                    j <= 8,
                    found ==> attacked(self@, loc, player_color),
                    !found ==> forall|a: int, b: int|
                        ((0 <= a < i && 0 <= b < 8) || (a == i && 0 <= b < j)) ==> !#[trigger] attacker_at(
                            self@,
                            loc,
                            player_color,
                            a,
                            b,
                        ),
                decreases 8 - j,
            {
                match self.piece_at(i, j) {
                    Some(p) => {
                        if p.color != player_color {
                            let moves = p.available_moves((i, j), self);
                            if contains_square(&moves, loc) {
                                assert(attacker_at(self@, loc, player_color, i as int, j as int));
                                found = true;
                            }
                        }
                    },
                    None => {},
                }
                j = j + 1;
            }
            i = i + 1;
        }
        found
    }

    /// Whether a king of side `player_color` stands on an attacked square.
    pub fn is_king_attacked(&self, player_color: Color) -> (r: bool)
        requires
            self.wf(),
        ensures
            r == king_attacked(self@, player_color),
    {
        let mut i: usize = 0;
        while i < 8
            invariant
                self.wf(),
                i <= 8,
                forall|a: int, b: int|
                    0 <= a < i && 0 <= b < 8 && #[trigger] holds(self@, PieceType::King, player_color, a, b)
                        ==> !attacked(self@, sq(a, b), player_color),
            decreases 8 - i,
        {
            let mut j: usize = 0;
            while j < 8
                invariant
                    self.wf(),
                    i < 8,
                    j <= 8,
                    forall|a: int, b: int|
                        ((0 <= a < i && 0 <= b < 8) || (a == i && 0 <= b < j)) && #[trigger] holds(
                            self@,
                            PieceType::King,
                            player_color,
                            a,
                            b,
                        ) ==> !attacked(self@, sq(a, b), player_color),
                decreases 8 - j,
            {
                match self.piece_at(i, j) {
                    Some(p) => {
                        if p.piece_type == PieceType::King && p.color == player_color {
                            if self.is_square_attacked((i, j), player_color) {
                                assert(holds(self@, PieceType::King, player_color, i as int, j as int));
                                assert(sq(i as int, j as int) == (i, j));
                                return true;
                            }
                        }
                    },
                    None => {},
                }
                j = j + 1;
            }
            i = i + 1;
        }
        false
    }

    /// The last square, scanning files then ranks, that holds a piece of the given kind and side;
    /// `None` when there is none.
    pub fn find_piece(&self, piece_type: PieceType, player_color: Color) -> (r: Option<(usize, usize)>)
        requires
            self.wf(),
        ensures
            r is None <==> forall|i: int, j: int| !#[trigger] holds(self@, piece_type, player_color, i, j),
            r matches Some(s) ==> holds(self@, piece_type, player_color, s.0 as int, s.1 as int) && forall|
                i: int,
                j: int,
            |
                (i > s.0 || (i == s.0 && j > s.1)) ==> !#[trigger] holds(self@, piece_type, player_color, i, j),
    {
        let mut found: Option<(usize, usize)> = None;
        let mut i: usize = 0;
        while i < 8
            invariant
                self.wf(),
                i <= 8,
                found is None ==> forall|a: int, b: int|
                    a < i ==> !#[trigger] holds(self@, piece_type, player_color, a, b),
                found matches Some(s) ==> s.0 < i && holds(self@, piece_type, player_color, s.0 as int, s.1 as int)
                    && forall|a: int, b: int|
                    ((s.0 < a < i) || (a == s.0 && b > s.1)) ==> !#[trigger] holds(
                        self@,
                        piece_type,
                        player_color,
                        a,
                        b,
                    ),
            decreases 8 - i,
        {
            let mut j: usize = 0;
            while j < 8
                invariant
                    self.wf(),
                    i < 8,
                    j <= 8,
                    found is None ==> forall|a: int, b: int|
                        (a < i || (a == i && b < j)) ==> !#[trigger] holds(self@, piece_type, player_color, a, b),
                    found matches Some(s) ==> s.0 <= i && (s.0 == i ==> s.1 < j) && holds(
                        self@,
                        piece_type,
                        player_color,
                        s.0 as int,
                        s.1 as int,
                    ) && forall|a: int, b: int|
                        ((s.0 < a < i) || (a == i && a > s.0 && b < j) || (a == s.0 && b > s.1 && (a < i
                            || b < j))) ==> !#[trigger] holds(self@, piece_type, player_color, a, b),
                decreases 8 - j,
            {
                match self.piece_at(i, j) {
                    Some(p) => {
                        if p.piece_type == piece_type && p.color == player_color {
                            found = Some((i, j));
                        }
                    },
                    None => {},
                }
                j = j + 1;
            }
            i = i + 1;
        }
        found
    }

    /// Whether the history holds `s`.
    fn history_contains(&self, s: (usize, usize)) -> (r: bool)
        ensures
            r == self@.history.contains(s),
    {
        contains_square(&self.history, s)
    }

    /// Whether castling is open to `player_color`, on the king's side and on the queen's side.
    pub fn castling(&self, player_color: Color) -> (r: (bool, bool))
        requires
            self.wf(),
        ensures
            r == castling_rights(self@, player_color),
    {
        let rank: usize = match player_color {
            Color::White => 0,
            Color::Black => 7,
        };
        if self.history_contains((4, rank)) || self.is_king_attacked(player_color) {
            return (false, false);
        }
        let mut long = true;
        let mut i: usize = 1;
        while i < 4
            invariant
                self.wf(),
                1 <= i <= 4,
                rank == home_rank(player_color),
                long == forall|k: int| 1 <= k < i ==> #[trigger] passable(self@, player_color, k),
            decreases 4 - i,
        {
            let ok = self.piece_at(i, rank).is_none() && !self.is_square_attacked((i, rank), player_color);
            assert(sq(i as int, rank as int) == (i, rank));
            assert(ok == passable(self@, player_color, i as int));
            let ghost prev = long;
            long = long && ok;
            assert(long == forall|k: int| 1 <= k < i + 1 ==> #[trigger] passable(self@, player_color, k)) by {
                if prev && ok {
                    assert forall|k: int| 1 <= k < i + 1 implies #[trigger] passable(self@, player_color, k) by {
                        if k < i {
                        }
                    }
                }
            }
            i = i + 1;
        }
        let mut short = true;
        let mut i: usize = 5;
        while i < 7
            invariant
                self.wf(),
                5 <= i <= 7,
                rank == home_rank(player_color),
                short == forall|k: int| 5 <= k < i ==> #[trigger] passable(self@, player_color, k),
            decreases 7 - i,
        {
            let ok = self.piece_at(i, rank).is_none() && !self.is_square_attacked((i, rank), player_color);
            assert(sq(i as int, rank as int) == (i, rank));
            assert(ok == passable(self@, player_color, i as int));
            let ghost prev = short;
            short = short && ok;
            assert(short == forall|k: int| 5 <= k < i + 1 ==> #[trigger] passable(self@, player_color, k)) by {
                if prev && ok {
                    assert forall|k: int| 5 <= k < i + 1 implies #[trigger] passable(self@, player_color, k) by {
                        if k < i {
                        }
                    }
                }
            }
            i = i + 1;
        }
        (short, long)
    }

    /// Relocates the castling companion of `piece` moving from `from` to `to`, when that move
    /// castles.
    pub fn castling_moves(&mut self, piece: Piece, from: (usize, usize), to: (usize, usize))
        requires
            old(self).wf(),
        ensures
            final(self).wf(),
            final(self)@ == castle_step(old(self)@, from, to, piece),
    {
        let rank: usize = match piece.color {
            Color::White => 0,
            Color::Black => 7,
        };
        if piece.piece_type == PieceType::King && from.0 == 4 && from.1 == rank {
            let (short, long) = self.castling(piece.color);
            if short && to.0 == 6 && to.1 == rank && self.holds_piece(7, rank, PieceType::Rook, piece.color) {
                self.set_piece(5, rank, Some(Piece::new(PieceType::Rook, piece.color)));
                self.set_piece(7, rank, None);
            } else if long && to.0 == 2 && to.1 == rank && self.holds_piece(0, rank, PieceType::Rook, piece.color) {
                self.set_piece(3, rank, Some(Piece::new(PieceType::Rook, piece.color)));
                self.set_piece(0, rank, None);
            }
        } else if piece.piece_type == PieceType::Rook && self.holds_piece(4, rank, PieceType::King, piece.color) {
            let (short, long) = self.castling(piece.color);
            if short && from.0 == 7 && from.1 == rank && to.0 == 5 && to.1 == rank {
                self.set_piece(6, rank, Some(Piece::new(PieceType::King, piece.color)));
                self.set_piece(4, rank, None);
            } else if long && from.0 == 0 && from.1 == rank && to.0 == 3 && to.1 == rank {
                self.set_piece(2, rank, Some(Piece::new(PieceType::King, piece.color)));
                self.set_piece(4, rank, None);
            }
        }
    }

    /// Whether (x, y) holds a piece of kind `kind` and side `color`.
    fn holds_piece(&self, x: usize, y: usize, kind: PieceType, color: Color) -> (r: bool)
        requires
            self.wf(),
            x < 8,
            y < 8,
        ensures
            r == holds(self@, kind, color, x as int, y as int),
    {
        match self.piece_at(x, y) {
            Some(p) => p.piece_type == kind && p.color == color,
            None => false,
        }
    }

    /// Plays `piece` from `from` to `to` without asking whether the move is legal.
    fn play(&mut self, from: (usize, usize), to: (usize, usize), piece: Piece)
        requires
            old(self).wf(),
            from.0 < 8,
            from.1 < 8,
            to.0 < 8,
            to.1 < 8,
        ensures
            final(self).wf(),
            final(self)@ == apply_move(old(self)@, from, to, piece),
    {
        let ghost p = self@;
        let en_passant = piece.piece_type == PieceType::Pawn && from.0 != to.0 && self.piece_at(to.0, to.1).is_none()
            && match self.double_step {
            Some(d) => d.0 == to.0 && d.1 == from.1,
            None => false,
        } && match self.piece_at(to.0, from.1) {
            Some(v) => v.piece_type == PieceType::Pawn && v.color != piece.color,
            None => false,
        };
        if en_passant {
            self.set_piece(to.0, from.1, None);
        }
        assert(en_passant == en_passant_capture(p, from, to, piece));
        self.castling_moves(piece, from, to);
        self.set_piece(from.0, from.1, None);
        self.set_piece(to.0, to.1, Some(Piece::new(piece.piece_type, piece.color)));
        self.history.push(to);
        if piece.piece_type == PieceType::Pawn && from.0 == to.0 && (to.1 == from.1 + 2 || from.1 == to.1 + 2) {
            self.double_step = Some(to);
        } else {
            self.double_step = None;
        }
    }

    /// Appends the castling destinations offered to `piece` on `loc`.
    fn add_castle_offers(&self, moves: &mut Vec<(usize, usize)>, loc: (usize, usize), piece: Piece)
        requires
            self.wf(),
        ensures
            final(moves)@ == old(moves)@ + castle_offers(self@, loc, piece),
    {
        let ghost start = moves@;
        let rank: usize = match piece.color {
            Color::White => 0,
            Color::Black => 7,
        };
        if piece.piece_type == PieceType::King && loc.0 == 4 && loc.1 == rank {
            let (short, long) = self.castling(piece.color);
            if short && self.holds_piece(7, rank, PieceType::Rook, piece.color) {
                moves.push((6, rank));
            }
            if long && self.holds_piece(0, rank, PieceType::Rook, piece.color) {
                moves.push((2, rank));
            }
            assert(moves@ =~= start + castle_offers(self@, loc, piece));
        } else if piece.piece_type == PieceType::Rook && ((loc.0 == 7 || loc.0 == 0) && loc.1 == rank)
            && self.holds_piece(4, rank, PieceType::King, piece.color) {
            let (short, long) = self.castling(piece.color);
            if loc.0 == 7 && short {
                moves.push((5, rank));
            } else if loc.0 == 0 && long {
                moves.push((3, rank));
            }
            assert(moves@ =~= start + castle_offers(self@, loc, piece));
        } else {
            assert(moves@ =~= start + castle_offers(self@, loc, piece));
        }
    }

    /// The legal destinations of `piece` on `loc`: its pseudo-legal destinations and castling
    /// offers, less those after which its own king would be attacked, each tried on a copy of the
    /// board.
    pub fn filter_available_moves(&self, loc: (usize, usize), piece: Piece) -> (r: Vec<(usize, usize)>)
        requires
            self.wf(),
            loc.0 < 8,
            loc.1 < 8,
        ensures
            forall|t: (usize, usize)| r@.contains(t) <==> legal(self@, loc, piece, t),
            r@.no_duplicates(),
            all_on_board(r@),
    {
        let mut cands = piece.available_moves(loc, self);
        proof {
            lemma_pseudo_moves_on_board(self@, piece, loc.0 as int, loc.1 as int);
        }
        self.add_castle_offers(&mut cands, loc, piece);
        let ghost all = cands@;
        assert(all == candidates(self@, loc, piece));
        assert(all_on_board(all)) by {
            let ps = pseudo_moves(self@, piece, loc.0 as int, loc.1 as int);
            assert forall|k: int| 0 <= k < all.len() implies (#[trigger] all[k]).0 < 8 && all[k].1 < 8 by {
                if k < ps.len() {
                    assert(all[k] == ps[k]);
                } else {
                    assert(all[k] == castle_offers(self@, loc, piece)[k - ps.len()]);
                }
            }
        }
        let mut out: Vec<(usize, usize)> = Vec::new();
        let mut k: usize = 0;
        while k < cands.len()
            invariant
                self.wf(),
                loc.0 < 8,
                loc.1 < 8,
                cands@ == all,
                all == candidates(self@, loc, piece),
                all_on_board(all),
                k <= all.len(),
                out@.no_duplicates(),
                all_on_board(out@),
                forall|t: (usize, usize)|
                    out@.contains(t) <==> (all.subrange(0, k as int).contains(t) && king_safe(apply_move(self@, loc, t, piece), piece.color)),
            decreases all.len() - k,
        {
            let t = cands[k];
            assert(t == all[k as int]);
            let mut scratch = self.duplicate();
            scratch.play(loc, t, piece);
            let safe = scratch.find_piece(PieceType::King, piece.color).is_some() && !scratch.is_king_attacked(
                piece.color,
            );
            let ghost before = out@;
            let pushed = safe && !contains_square(&out, t);
            if pushed {
                out.push(t);
            }
            assert(all.subrange(0, k + 1) =~= all.subrange(0, k as int).push(t));
            assert(safe == king_safe(apply_move(self@, loc, t, piece), piece.color));
            assert forall|u: (usize, usize)|
                out@.contains(u) <==> (all.subrange(0, k + 1).contains(u) && king_safe(
                    apply_move(self@, loc, u, piece),
                    piece.color,
                )) by {
                lemma_push_contains(all.subrange(0, k as int), t, u);
                if pushed {
                    lemma_push_contains(before, t, u);
                }
            }
            if pushed {
                assert forall|a: int, b: int| 0 <= a < b < out@.len() implies out@[a] != out@[b] by {
                    if b == out@.len() - 1 {
                        assert(out@[a] == before[a]);
                    } else {
                        assert(out@[a] == before[a] && out@[b] == before[b]);
                    }
                }
            }
            k = k + 1;
        }
        assert(all.subrange(0, all.len() as int) =~= all);
        out
    }

    /// Moves the piece on `from` to `to` when it belongs to `player_color` and `to` is among its
    /// legal destinations; otherwise leaves the board as it is. Returns whether it moved.
    pub fn move_piece(&mut self, from: (usize, usize), to: (usize, usize), player_color: Color) -> (accepted: bool)
        requires
            old(self).wf(),
            from.0 < 8,
            from.1 < 8,
            to.0 < 8,
            to.1 < 8,
        ensures
            final(self).wf(),
            accepted == move_accepted(old(self)@, from, to, player_color),
            final(self)@ == after_move(old(self)@, from, to, player_color),
    {
        match self.piece_at(from.0, from.1) {
            Some(piece) => {
                if piece.color != player_color {
                    return false;
                }
                let moves = self.filter_available_moves(from, piece);
                if contains_square(&moves, to) {
                    self.play(from, to, piece);
                    true
                } else {
                    false
                }
            },
            None => false,
        }
    }

    /// Places a fresh piece of `piece`'s kind and side on `to` and clears `from`.
    pub fn promotion(&mut self, from: (usize, usize), to: (usize, usize), piece: Piece)
        requires
            old(self).wf(),
            from.0 < 8,
            from.1 < 8,
            to.0 < 8,
            to.1 < 8,
        ensures
            final(self).wf(),
            final(self)@ == old(self)@.set(to.0 as int, to.1 as int, Some(fresh(piece.piece_type, piece.color))).set(
                from.0 as int,
                from.1 as int,
                None,
            ),
    {
        self.set_piece(to.0, to.1, Some(Piece::new(piece.piece_type, piece.color)));
        self.set_piece(from.0, from.1, None);
    }

    /// Whether `player_color` is checkmated and whether it is stalemated: in both cases none of
    /// its pieces has a legal destination; its king is attacked in the first and not in the second.
    pub fn check_for_winner(&self, player_color: Color) -> (r: (bool, bool))
        requires
            self.wf(),
        ensures
            r.0 == (king_attacked(self@, player_color) && no_legal_moves(self@, player_color)),
            r.1 == (!king_attacked(self@, player_color) && no_legal_moves(self@, player_color)),
    {
        let mut can_move = false;
        let mut i: usize = 0;
        while i < 8
            invariant
                self.wf(),
                i <= 8,
                can_move == exists|a: int, b: int| 0 <= a < i && 0 <= b < 8 && #[trigger] movable(self@, player_color, a, b),
            decreases 8 - i,
        {
            let mut j: usize = 0;
            while j < 8
                invariant
                    self.wf(),
                    i < 8,
                    j <= 8,
                    can_move == exists|a: int, b: int|
                        ((0 <= a < i && 0 <= b < 8) || (a == i && 0 <= b < j)) && #[trigger] movable(
                            self@,
                            player_color,
                            a,
                            b,
                        ),
                decreases 8 - j,
            {
                let ghost old_can = can_move;
                match self.piece_at(i, j) {
                    Some(p) => {
                        if p.color == player_color {
                            let moves = self.filter_available_moves((i, j), p);
                            assert(sq(i as int, j as int) == (i, j));
                            if moves.len() > 0 {
                                assert(moves@.contains(moves@[0]));
                                assert(legal(self@, sq(i as int, j as int), p, moves@[0]));
                                assert(movable(self@, player_color, i as int, j as int));
                                can_move = true;
                            } else {
                                assert forall|t: (usize, usize)| !legal(self@, sq(i as int, j as int), p, t) by {
                                    if legal(self@, sq(i as int, j as int), p, t) {
                                        assert(moves@.contains(t));
                                    }
                                }
                                assert(!movable(self@, player_color, i as int, j as int));
                            }
                        } else {
                            assert(!movable(self@, player_color, i as int, j as int));
                        }
                    },
                    None => {
                        assert(!movable(self@, player_color, i as int, j as int));
                    },
                }
                j = j + 1;
            }
            i = i + 1;
        }
        assert(can_move == !no_legal_moves(self@, player_color)) by {
            if !can_move {
                assert forall|a: int, b: int| !#[trigger] movable(self@, player_color, a, b) by {
                    if movable(self@, player_color, a, b) {
                        assert(0 <= a < 8 && 0 <= b < 8);
                    }
                }
            }
        }
        let attacked = self.is_king_attacked(player_color);
        (attacked && !can_move, !attacked && !can_move)
    }
}

impl Board {
    /// An empty board with an empty history.
    pub fn new() -> (r: Board)
        ensures
            r.wf(),
            forall|i: int, j: int| on_board(i, j) ==> r@.grid[i][j] is None,
            r@.history.len() == 0,
            r@.double_step is None,
    {
        let mut rows: Vec<Vec<Square>> = Vec::new();
        let mut i: usize = 0;
        while i < 8
            invariant
                i <= 8,
                rows@.len() == i,
                forall|k: int| 0 <= k < i ==> (#[trigger] rows@[k])@.len() == 8,
                forall|k: int, l: int| 0 <= k < i && 0 <= l < 8 ==> (#[trigger] rows@[k]@[l]).piece is None,
            decreases 8 - i,
        {
            let mut row: Vec<Square> = Vec::new();
            let mut j: usize = 0;
            while j < 8
                invariant
                    j <= 8,
                    row@.len() == j,
                    forall|l: int| 0 <= l < j ==> (#[trigger] row@[l]).piece is None,
                decreases 8 - j,
            {
                row.push(Square { piece: None });
                j = j + 1;
            }
            rows.push(row);
            i = i + 1;
        }
        Board { board_squares: rows, history: Vec::new(), double_step: None }
    }

    /// Sets up the starting position: pawns on the second and seventh ranks, the other pieces
    /// behind them, every other square empty. The history is left as it is.
    pub fn init(&mut self)
        requires
            old(self).wf(),
        ensures
            final(self).wf(),
            forall|i: int, j: int| on_board(i, j) ==> final(self)@.grid[i][j] == start_square(i, j),
            final(self)@.history == old(self)@.history,
            final(self)@.double_step == old(self)@.double_step,
    {
        let mut rows: Vec<Vec<Square>> = Vec::new();
        let mut i: usize = 0;
        while i < 8
            invariant
                i <= 8,
                rows@.len() == i,
                forall|k: int| 0 <= k < i ==> (#[trigger] rows@[k])@.len() == 8,
                forall|k: int, l: int|
                    0 <= k < i && 0 <= l < 8 ==> (#[trigger] rows@[k]@[l]).piece == start_square(k, l),
            decreases 8 - i,
        {
            let back = match i {
                0 | 7 => PieceType::Rook,
                1 | 6 => PieceType::Knight,
                2 | 5 => PieceType::Bishop,
                3 => PieceType::Queen,
                _ => PieceType::King,
            };
            let mut row: Vec<Square> = Vec::new();
            let mut j: usize = 0;
            while j < 8
                invariant
                    i < 8,
                    j <= 8,
                    back == back_rank_kind(i as int),
                    row@.len() == j,
                    forall|l: int| 0 <= l < j ==> (#[trigger] row@[l]).piece == start_square(i as int, l),
                decreases 8 - j,
            {
                let piece = if j == 1 {
                    Some(Piece::new(PieceType::Pawn, Color::White))
                } else if j == 6 {
                    Some(Piece::new(PieceType::Pawn, Color::Black))
                } else if j == 0 {
                    Some(Piece::new(back, Color::White))
                } else if j == 7 {
                    Some(Piece::new(back, Color::Black))
                } else {
                    None
                };
                row.push(Square { piece });
                j = j + 1;
            }
            rows.push(row);
            i = i + 1;
        }
        self.board_squares = rows;
    }
}

impl Board {
    /// Checks a claimed origin, a piece letter, file and rank, for side `player_color`: the
    /// legal destinations of the piece there, or why there are none to offer.
    pub fn check_board(&self, curr: (char, char, Option<u32>), player_color: Color) -> (r: Result<
        Vec<(usize, usize)>,
        MoveError,
    >)
        requires
            self.wf(),
        ensures
            match parsed_square(curr) {
                None => r == Err::<Vec<(usize, usize)>, MoveError>(MoveError::OriginMismatch),
                Some(s) => if !origin_matches(self@, s, player_color) {
                    r == Err::<Vec<(usize, usize)>, MoveError>(MoveError::OriginMismatch)
                } else {
                    let pc = self@.grid[s.0 as int][s.1 as int].unwrap();
                    &&& r is Err <==> forall|t: (usize, usize)| !legal(self@, (s.0, s.1), pc, t)
                    &&& r is Err ==> r == Err::<Vec<(usize, usize)>, MoveError>(MoveError::InvalidMove)
                    &&& r matches Ok(v) ==> forall|t: (usize, usize)| v@.contains(t) <==> legal(self@, (s.0, s.1), pc, t)
                },
            },
    {
        let (i, j, piece_type) = match format_input(curr) {
            Some(s) => s,
            None => {
                return Err(MoveError::OriginMismatch);
            },
        };
        match self.piece_at(i, j) {
            Some(piece) => {
                if piece.piece_type != piece_type || piece.color != player_color {
                    return Err(MoveError::OriginMismatch);
                }
                let moves = self.filter_available_moves((i, j), piece);
                if moves.len() == 0 {
                    assert forall|t: (usize, usize)| !legal(self@, (i, j), piece, t) by {
                        if legal(self@, (i, j), piece, t) {
                            assert(moves@.contains(t));
                        }
                    }
                    Err(MoveError::InvalidMove)
                } else {
                    assert(moves@.contains(moves@[0]));
                    Ok(moves)
                }
            },
            None => Err(MoveError::OriginMismatch),
        }
    }

    /// Plays a move given as a claimed origin and a destination, each a piece letter, file and
    /// rank: refused, changing nothing, when a square is off the board or the origin does not
    /// hold the piece claimed for `player_color`, or when the move is not legal.
    pub fn update_board(
        &mut self,
        curr: (char, char, Option<u32>),
        next: (char, char, Option<u32>),
        player_color: Color,
    ) -> (r: Result<(), MoveError>)
        requires
            old(self).wf(),
        ensures
            final(self).wf(),
            match (parsed_square(curr), parsed_square(next)) {
                (Some(s), Some(d)) => if !origin_matches(old(self)@, s, player_color) {
                    r == Err::<(), MoveError>(MoveError::OriginMismatch) && final(self)@ == old(self)@
                } else if move_accepted(old(self)@, (s.0, s.1), (d.0, d.1), player_color) {
                    r is Ok && final(self)@ == after_move(old(self)@, (s.0, s.1), (d.0, d.1), player_color)
                } else {
                    r == Err::<(), MoveError>(MoveError::InvalidMove) && final(self)@ == old(self)@
                },
                (None, _) => r == Err::<(), MoveError>(MoveError::OriginMismatch) && final(self)@ == old(self)@,
                (Some(_), None) => r == Err::<(), MoveError>(MoveError::InvalidMove) && final(self)@ == old(self)@,
            },
    {
        let (i, j, piece_type) = match format_input(curr) {
            Some(s) => s,
            None => {
                return Err(MoveError::OriginMismatch);
            },
        };
        let (i_2, j_2, _kind) = match format_input(next) {
            Some(s) => s,
            None => {
                return Err(MoveError::InvalidMove);
            },
        };
        match self.piece_at(i, j) {
            Some(piece) => {
                if piece.piece_type != piece_type || piece.color != player_color {
                    return Err(MoveError::OriginMismatch);
                }
            },
            None => {
                return Err(MoveError::OriginMismatch);
            },
        }
        if self.move_piece((i, j), (i_2, j_2), player_color) {
            Ok(())
        } else {
            Err(MoveError::InvalidMove)
        }
    }
}

} // verus!
