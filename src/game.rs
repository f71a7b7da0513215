use vstd::prelude::*;

use crate::board::Board;
use crate::position::{
    after_move, castling_rights, holds, home_rank, king_attacked, legal, move_accepted, no_legal_moves, on_board,
    start_square, Position,
};
use crate::piece::{fresh, Color, Piece, PieceType};

verus! {

/// The side of the board a castling move goes to.
#[derive(Debug, Clone, Copy, PartialEq, Eq, Structural)]
pub enum CastlingSide {
    QueenSide,
    KingSide,
}

/// One game: the board, the side to move, and the square of a pawn waiting to be promoted.
#[derive(Debug)]
pub struct Game {
    pub board: Board,
    pub curr_player: Color,
    pub promotable: Option<(usize, usize)>,
}

/// The rank on which a pawn of side `c` is promoted.
pub open spec fn last_rank(c: Color) -> int {
    7 - home_rank(c)
}

/// Whether `to` holds a pawn of side `c` on the rank where it is promoted.
pub open spec fn promotes(p: Position, to: (usize, usize), c: Color) -> bool {
    p.grid[to.0 as int][to.1 as int] is Some && p.grid[to.0 as int][to.1 as int].unwrap().piece_type
        == PieceType::Pawn && to.1 == last_rank(c)
}

/// Whether castling to `side` is open to `c`.
pub open spec fn castle_open(p: Position, c: Color, side: CastlingSide) -> bool {
    match side {
        CastlingSide::KingSide => castling_rights(p, c).0,
        CastlingSide::QueenSide => castling_rights(p, c).1,
    }
}

/// The file the king lands on when castling to `side`.
pub open spec fn castle_file(side: CastlingSide) -> usize {
    match side {
        CastlingSide::KingSide => 6,
        CastlingSide::QueenSide => 2,
    }
}

/// The kinds a pawn may be promoted to.
pub open spec fn promotion_kind(kind: PieceType) -> bool {
    kind == PieceType::Queen || kind == PieceType::Rook || kind == PieceType::Bishop || kind == PieceType::Knight
}

/// The side of the piece on `s`, or `c` when `s` is empty.
pub open spec fn side_on(p: Position, s: (usize, usize), c: Color) -> Color {
    match p.grid[s.0 as int][s.1 as int] {
        Some(q) => q.color,
        None => c,
    }
}

/// What a letter names as a piece: `r`, `n`, `b`, `q`, `k`, and a pawn for anything else.
pub open spec fn kind_of_letter(p: char) -> PieceType {
    if p == 'r' {
        PieceType::Rook
    } else if p == 'n' {
        PieceType::Knight
    } else if p == 'b' {
        PieceType::Bishop
    } else if p == 'q' {
        PieceType::Queen
    } else if p == 'k' {
        PieceType::King
    } else {
        PieceType::Pawn
    }
}

/// The file a letter `a` to `h` names.
pub open spec fn file_of_letter(c: char) -> Option<usize> {
    if 'a' <= c && c <= 'h' {
        Some((c as u32 - 'a' as u32) as usize)
    } else {
        None
    }
}

impl Game {
    /// The board is well formed and a waiting pawn's square is on it.
    pub open spec fn wf(&self) -> bool {
        &&& self.board.wf()
        &&& self.promotable matches Some(s) ==> s.0 < 8 && s.1 < 8
    }

    /// A game in the starting position, White to move.
    pub fn new() -> (r: Self)
        ensures
            r.wf(),
            forall|i: int, j: int| on_board(i, j) ==> r.board@.grid[i][j] == start_square(i, j),
            r.board@.history.len() == 0,
            r.board@.double_step is None,
            r.curr_player == Color::White,
            r.promotable is None,
    {
        let mut game = Game { board: Board::new(), curr_player: Color::White, promotable: None };
        game.board.init();
        game
    }

    /// Replaces the pawn waiting on the promotion square with a fresh piece of `kind` and the same
    /// side, and hands the move to the other side. Returns false, changing nothing, when no pawn
    /// is waiting or `kind` is a king or a pawn.
    pub fn promote(&mut self, kind: PieceType) -> (r: bool)
        requires
            old(self).wf(),
        ensures
            final(self).wf(),
            r == (old(self).promotable is Some && promotion_kind(kind)),
            r ==> ({
                let s = old(self).promotable.unwrap();
                &&& final(self).board@ == old(self).board@.set(
                    s.0 as int,
                    s.1 as int,
                    Some(fresh(kind, side_on(old(self).board@, s, old(self).curr_player))),
                )
                &&& final(self).promotable is None
                &&& final(self).curr_player == old(self).curr_player.opponent()
            }),
            !r ==> final(self).board@ == old(self).board@ && final(self).curr_player == old(self).curr_player
                && final(self).promotable == old(self).promotable,
    {
        match kind {
            PieceType::King | PieceType::Pawn => {
                return false;
            },
            _ => {},
        }
        match self.promotable {
            Some((x, y)) => {
                let color = match self.board.piece_at(x, y) {
                    Some(p) => p.color,
                    None => self.curr_player,
                };
                self.board.set_piece(x, y, Some(Piece::new(kind, color)));
                self.promotable = None;
                self.curr_player = self.curr_player.other();
                true
            },
            None => false,
        }
    }

    /// Castles the side to move towards `side`: moves its king from its home square two files
    /// over, when castling that way is open and the move is legal. Returns whether it moved.
    pub fn castle(&mut self, side: CastlingSide) -> (r: bool)
        requires
            old(self).wf(),
        ensures
            final(self).wf(),
            ({
                let p = old(self).board@;
                let c = old(self).curr_player;
                let rank = home_rank(c) as usize;
                let to = (castle_file(side), rank);
                &&& r == (old(self).promotable is None && castle_open(p, c, side) && holds(
                    p,
                    PieceType::King,
                    c,
                    4,
                    rank as int,
                ) && move_accepted(p, (4, rank), to, c))
                &&& final(self).board@ == after_move(p, (4, rank), to, c) || !r
                &&& r ==> final(self).curr_player == c.opponent() && final(self).promotable is None
                &&& !r ==> final(self).board@ == p && final(self).curr_player == c && final(self).promotable
                    == old(self).promotable
            }),
    {
        let (kingside, queenside) = self.board.castling(self.curr_player);
        let allowed = match side {
            CastlingSide::KingSide => kingside,
            CastlingSide::QueenSide => queenside,
        };
        if !allowed || self.promotable.is_some() {
            return false;
        }
        let x: usize = match side {
            CastlingSide::KingSide => 6,
            CastlingSide::QueenSide => 2,
        };
        let rank: usize = match self.curr_player {
            Color::White => 0,
            Color::Black => 7,
        };
        let is_king = match self.board.piece_at(4, rank) {
            Some(p) => p.piece_type == PieceType::King && p.color == self.curr_player,
            None => false,
        };
        if !is_king {
            return false;
        }
        let ghost before = self.board@;
        let moved = self.move_piece((4, rank), (x, rank));
        proof {
            if moved {
                assert(self.board@.grid[x as int][rank as int] == Some(fresh(PieceType::King, old(self).curr_player)))
                    by {
                    crate::position::lemma_destination_holds_mover(before, (4, rank), (x, rank), old(self).curr_player);
                }
            }
        }
        moved
    }

    /// The legal destinations of the piece on `loc`; none when it is empty.
    pub fn get_available_moves(&self, loc: (usize, usize)) -> (r: Vec<(usize, usize)>)
        requires
            self.wf(),
            loc.0 < 8,
            loc.1 < 8,
        ensures
            match self.board@.grid[loc.0 as int][loc.1 as int] {
                Some(p) => forall|t: (usize, usize)| r@.contains(t) <==> legal(self.board@, loc, p, t),
                None => r@.len() == 0,
            },
            r@.no_duplicates(),
    {
        match self.board.piece_at(loc.0, loc.1) {
            Some(piece) => self.board.filter_available_moves(loc, piece),
            None => Vec::new(),
        }
    }

    /// Moves for the side to move, unless a pawn is waiting to be promoted. After an accepted
    /// move, a pawn of that side on its last rank waits for `promote` and the turn stays;
    /// otherwise the turn passes. Returns whether the move was accepted.
    pub fn move_piece(&mut self, from: (usize, usize), to: (usize, usize)) -> (accepted: bool)
        requires
            old(self).wf(),
            from.0 < 8,
            from.1 < 8,
            to.0 < 8,
            to.1 < 8,
        ensures
            final(self).wf(),
            accepted == (old(self).promotable is None && move_accepted(
                old(self).board@,
                from,
                to,
                old(self).curr_player,
            )),
            accepted ==> final(self).board@ == after_move(old(self).board@, from, to, old(self).curr_player),
            accepted && promotes(final(self).board@, to, old(self).curr_player) ==> final(self).promotable == Some(to)
                && final(self).curr_player == old(self).curr_player,
            accepted && !promotes(final(self).board@, to, old(self).curr_player) ==> final(self).promotable is None
                && final(self).curr_player == old(self).curr_player.opponent(),
            !accepted ==> final(self).board@ == old(self).board@ && final(self).curr_player == old(
                self,
            ).curr_player && final(self).promotable == old(self).promotable,
    {
        if self.promotable.is_some() {
            return false;
        }
        let accepted = self.board.move_piece(from, to, self.curr_player);
        if accepted {
            let last: usize = match self.curr_player {
                Color::White => 7,
                Color::Black => 0,
            };
            let pawn_arrived = match self.board.piece_at(to.0, to.1) {
                Some(p) => p.piece_type == PieceType::Pawn && to.1 == last,
                None => false,
            };
            if pawn_arrived {
                self.promotable = Some(to);
            } else {
                self.curr_player = self.curr_player.other();
            }
        }
        accepted
    }

    /// Whether the side to move is checkmated, and whether it is stalemated.
    pub fn check_for_win(&self) -> (r: (bool, bool))
        requires
            self.wf(),
        ensures
            r.0 == (king_attacked(self.board@, self.curr_player) && no_legal_moves(self.board@, self.curr_player)),
            r.1 == (!king_attacked(self.board@, self.curr_player) && no_legal_moves(self.board@, self.curr_player)),
    {
        self.board.check_for_winner(self.curr_player)
    }
}

/// The square and kind that a piece letter, a file letter and a rank name, when the file and rank
/// are on the board.
pub open spec fn parsed_square(input: (char, char, Option<u32>)) -> Option<(usize, usize, PieceType)> {
    match (file_of_letter(input.1), input.2) {
        (Some(f), Some(n)) => if 1 <= n <= 8 {
            Some((f, (n - 1) as usize, kind_of_letter(input.0)))
        } else {
            None
        },
        _ => None,
    }
}

/// Reads a square given as a piece letter, a file letter `a` to `h` and a rank 1 to 8, as
/// zero-based (file, rank) and the kind named; `None` when the file or the rank is out of range.
pub fn format_input(input: (char, char, Option<u32>)) -> (r: Option<(usize, usize, PieceType)>)
    ensures
        r == parsed_square(input),
{
    let (p, c, r) = input;
    let piece_type = match p {
        'r' => PieceType::Rook,
        'n' => PieceType::Knight,
        'b' => PieceType::Bishop,
        'q' => PieceType::Queen,
        'k' => PieceType::King,
        _ => PieceType::Pawn,
    };
    let i: usize = match c {
        'a' => 0,
        'b' => 1,
        'c' => 2,
        'd' => 3,
        'e' => 4,
        'f' => 5,
        'g' => 6,
        'h' => 7,
        _ => {
            return None;
        },
    };
    let j: usize = match r {
        Some(n) => {
            if n < 1 || n > 8 {
                return None;
            }
            (n - 1) as usize
        },
        None => {
            return None;
        },
    };
    Some((i, j, piece_type))
}

} // verus!
