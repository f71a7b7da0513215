use vstd::prelude::*;

use crate::position::{after_move, holds, home_rank, move_accepted};
use crate::game::{castle_file, castle_open, promotes, promotion_kind, CastlingSide, Game};
use crate::piece::{fresh, PieceType};

verus! {

/// A move as two peers exchange it; squares are indices `8 * rank + file`.
#[derive(Debug, Clone, Copy, PartialEq, Eq, Structural)]
pub enum MoveEvent {
    Standard(u8, u8),
    EnPassant(u8, u8),
    Promotion(u8, u8, u8),
    KingsideCastle,
    QueensideCastle,
    Other,
}

/// A message between two peers.
#[derive(Debug, Clone, Copy, PartialEq, Eq, Structural)]
pub enum NetEvent {
    Decline,
    Move(MoveEvent),
    Undo,
    Accept,
    Checkmate,
    Draw,
    Resign,
    Disconnect,
}

/// The bytes that stand for an event: a tag, and for a move a second tag and its operands.
pub open spec fn event_bytes(e: NetEvent) -> Seq<u8> {
    match e {
        NetEvent::Decline => seq![0u8],
        NetEvent::Move(mv) => seq![1u8] + match mv {
            MoveEvent::Standard(a, b) => seq![0u8, a, b],
            MoveEvent::EnPassant(a, b) => seq![1u8, a, b],
            MoveEvent::Promotion(a, b, k) => seq![2u8, a, b, k],
            MoveEvent::KingsideCastle => seq![3u8],
            MoveEvent::QueensideCastle => seq![4u8],
            MoveEvent::Other => Seq::<u8>::empty(),
        },
        NetEvent::Undo => seq![2u8],
        NetEvent::Accept => seq![3u8],
        NetEvent::Checkmate => seq![4u8],
        NetEvent::Draw => seq![5u8],
        NetEvent::Resign => seq![6u8],
        NetEvent::Disconnect => Seq::<u8>::empty(),
    }
}

/// The event that a received buffer stands for; an unknown tag reads as a disconnection, an
/// unknown move tag as `Other`.
pub open spec fn event_of(b: Seq<u8>) -> NetEvent {
    if b[0] == 0 {
        NetEvent::Decline
    } else if b[0] == 1 {
        NetEvent::Move(
            if b[1] == 0 {
                MoveEvent::Standard(b[2], b[3])
            } else if b[1] == 1 {
                MoveEvent::EnPassant(b[2], b[3])
            } else if b[1] == 2 {
                MoveEvent::Promotion(b[2], b[3], b[4])
            } else if b[1] == 3 {
                MoveEvent::KingsideCastle
            } else if b[1] == 4 {
                MoveEvent::QueensideCastle
            } else {
                MoveEvent::Other
            },
        )
    } else if b[0] == 2 {
        NetEvent::Undo
    } else if b[0] == 3 {
        NetEvent::Accept
    } else if b[0] == 4 {
        NetEvent::Checkmate
    } else if b[0] == 5 {
        NetEvent::Draw
    } else if b[0] == 6 {
        NetEvent::Resign
    } else {
        NetEvent::Disconnect
    }
}

/// The number that stands for a kind on the wire.
pub open spec fn piece_code(kind: PieceType) -> u8 {
    match kind {
        PieceType::Pawn => 0,
        PieceType::Knight => 1,
        PieceType::Bishop => 2,
        PieceType::Rook => 3,
        PieceType::Queen => 4,
        PieceType::King => 5,
    }
}

/// The kind a wire number stands for, when it stands for one.
pub open spec fn kind_of_code(id: u8) -> Option<PieceType> {
    if id == 0 {
        Some(PieceType::Pawn)
    } else if id == 1 {
        Some(PieceType::Knight)
    } else if id == 2 {
        Some(PieceType::Bishop)
    } else if id == 3 {
        Some(PieceType::Rook)
    } else if id == 4 {
        Some(PieceType::Queen)
    } else if id == 5 {
        Some(PieceType::King)
    } else {
        None
    }
}

/// The (file, rank) an index names.
pub open spec fn square_of_index(i: u8) -> (usize, usize) {
    ((i % 8) as usize, (i / 8) as usize)
}

/// Reads a received buffer.
pub fn parse_incoming(buffer: &[u8; 32]) -> (r: NetEvent)
    ensures
        r == event_of(buffer@),
{
    let current = buffer[0];
    match current {
        0 => NetEvent::Decline,
        1 => {
            let current = buffer[1];
            NetEvent::Move(
                match current {
                    0 => MoveEvent::Standard(buffer[2], buffer[3]),
                    1 => MoveEvent::EnPassant(buffer[2], buffer[3]),
                    2 => MoveEvent::Promotion(buffer[2], buffer[3], buffer[4]),
                    3 => MoveEvent::KingsideCastle,
                    4 => MoveEvent::QueensideCastle,
                    _ => MoveEvent::Other,
                },
            )
        },
        2 => NetEvent::Undo,
        3 => NetEvent::Accept,
        4 => NetEvent::Checkmate,
        5 => NetEvent::Draw,
        6 => NetEvent::Resign,
        _ => NetEvent::Disconnect,
    }
}

/// The (file, rank) of a square index.
pub fn parse_index(index: u8) -> (r: (usize, usize))
    ensures
        r.0 == index % 8,
        r.1 == index / 8,
        r.0 < 8,
        r.1 < 32,
{
    let index = index as usize;
    (index % 8, index / 8)
}

/// The index of a square.
pub fn encode_index(loc: (usize, usize)) -> (r: u8)
    requires
        loc.0 < 8,
        loc.1 < 32,
    ensures
        r == loc.1 * 8 + loc.0,
{
    (loc.1 as u8 * 8) + loc.0 as u8
}

/// The kind a number stands for on the wire; `None` past 5.
pub fn parse_piece(id: u8) -> (r: Option<PieceType>)
    ensures
        r == kind_of_code(id),
{
    if id > 5 {
        return None;
    }
    Some(
        match id {
            0 => PieceType::Pawn,
            1 => PieceType::Knight,
            2 => PieceType::Bishop,
            3 => PieceType::Rook,
            4 => PieceType::Queen,
            _ => PieceType::King,
        },
    )
}

/// The number that stands for a kind on the wire.
pub fn encode_piece(kind: PieceType) -> (r: u8)
    ensures
        r == piece_code(kind),
{
    match kind {
        PieceType::Pawn => 0,
        PieceType::Knight => 1,
        PieceType::Bishop => 2,
        PieceType::Rook => 3,
        PieceType::Queen => 4,
        PieceType::King => 5,
    }
}

/// The bytes sent for an event.
pub fn encode_event(e: NetEvent) -> (r: Vec<u8>)
    ensures
        r@ == event_bytes(e),
{
    let mut ret: Vec<u8> = Vec::new();
    match e {
        NetEvent::Decline => ret.push(0),
        NetEvent::Move(mv) => {
            ret.push(1);
            match mv {
                MoveEvent::Standard(from, to) => {
                    ret.push(0);
                    ret.push(from);
                    ret.push(to);
                },
                MoveEvent::EnPassant(from, to) => {
                    ret.push(1);
                    ret.push(from);
                    ret.push(to);
                },
                MoveEvent::Promotion(from, to, kind) => {
                    ret.push(2);
                    ret.push(from);
                    ret.push(to);
                    ret.push(kind);
                },
                MoveEvent::KingsideCastle => ret.push(3),
                MoveEvent::QueensideCastle => ret.push(4),
                MoveEvent::Other => {},
            }
        },
        NetEvent::Undo => ret.push(2),
        NetEvent::Accept => ret.push(3),
        NetEvent::Checkmate => ret.push(4),
        NetEvent::Draw => ret.push(5),
        NetEvent::Resign => ret.push(6),
        NetEvent::Disconnect => {},
    }
    assert(ret@ =~= event_bytes(e));
    ret
}

/// Plays a move received from the other peer on `game`, for the side to move: a plain or
/// en-passant move from one index to another, a promotion, or a castling move. Returns whether it
/// was played; when it was not, the game is unchanged.
pub fn apply_move_event(game: &mut Game, mv: MoveEvent) -> (accepted: bool)
    requires
        old(game).wf(),
    ensures
        final(game).wf(),
        !accepted ==> final(game).board@ == old(game).board@ && final(game).curr_player == old(game).curr_player
            && final(game).promotable == old(game).promotable,
        match mv {
            MoveEvent::Standard(a, b) | MoveEvent::EnPassant(a, b) => accepted == (a < 64 && b < 64
                && old(game).promotable is None && move_accepted(
                old(game).board@,
                square_of_index(a),
                square_of_index(b),
                old(game).curr_player,
            )) && (accepted ==> final(game).board@ == after_move(
                old(game).board@,
                square_of_index(a),
                square_of_index(b),
                old(game).curr_player,
            )) && (accepted && promotes(final(game).board@, square_of_index(b), old(game).curr_player)
                ==> final(game).promotable == Some(square_of_index(b)) && final(game).curr_player == old(
                game,
            ).curr_player) && (accepted && !promotes(final(game).board@, square_of_index(b), old(game).curr_player)
                ==> final(game).promotable is None && final(game).curr_player == old(game).curr_player.opponent()),
            MoveEvent::Promotion(a, b, k) => accepted == (a < 64 && b < 64 && kind_of_code(k) is Some
                && promotion_kind(kind_of_code(k).unwrap()) && old(game).promotable is None && move_accepted(
                old(game).board@,
                square_of_index(a),
                square_of_index(b),
                old(game).curr_player,
            )) && (accepted ==> {
                let moved = after_move(
                    old(game).board@,
                    square_of_index(a),
                    square_of_index(b),
                    old(game).curr_player,
                );
                let t = square_of_index(b);
                &&& promotes(moved, t, old(game).curr_player) ==> final(game).board@ == moved.set(
                    t.0 as int,
                    t.1 as int,
                    Some(fresh(kind_of_code(k).unwrap(), moved.grid[t.0 as int][t.1 as int].unwrap().color)),
                ) && final(game).promotable is None && final(game).curr_player == old(game).curr_player.opponent()
                &&& !promotes(moved, t, old(game).curr_player) ==> final(game).board@ == moved
                    && final(game).promotable is None && final(game).curr_player == old(game).curr_player.opponent()
            }),
            MoveEvent::KingsideCastle => accepted == (old(game).promotable is None && castle_open(
                old(game).board@,
                old(game).curr_player,
                CastlingSide::KingSide,
            ) && holds(old(game).board@, PieceType::King, old(game).curr_player, 4, home_rank(old(game).curr_player))
                && move_accepted(
                old(game).board@,
                (4, home_rank(old(game).curr_player) as usize),
                (castle_file(CastlingSide::KingSide), home_rank(old(game).curr_player) as usize),
                old(game).curr_player,
            )) && (accepted ==> final(game).board@ == after_move(
                old(game).board@,
                (4, home_rank(old(game).curr_player) as usize),
                (castle_file(CastlingSide::KingSide), home_rank(old(game).curr_player) as usize),
                old(game).curr_player,
            ) && final(game).promotable is None && final(game).curr_player == old(game).curr_player.opponent()),
            MoveEvent::QueensideCastle => accepted == (old(game).promotable is None && castle_open(
                old(game).board@,
                old(game).curr_player,
                CastlingSide::QueenSide,
            ) && holds(old(game).board@, PieceType::King, old(game).curr_player, 4, home_rank(old(game).curr_player))
                && move_accepted(
                old(game).board@,
                (4, home_rank(old(game).curr_player) as usize),
                (castle_file(CastlingSide::QueenSide), home_rank(old(game).curr_player) as usize),
                old(game).curr_player,
            )) && (accepted ==> final(game).board@ == after_move(
                old(game).board@,
                (4, home_rank(old(game).curr_player) as usize),
                (castle_file(CastlingSide::QueenSide), home_rank(old(game).curr_player) as usize),
                old(game).curr_player,
            ) && final(game).promotable is None && final(game).curr_player == old(game).curr_player.opponent()),
            MoveEvent::Other => !accepted,
        },
{
    match mv {
        MoveEvent::Standard(a, b) | MoveEvent::EnPassant(a, b) => {
            if a >= 64 || b >= 64 {
                return false;
            }
            let from = parse_index(a);
            let to = parse_index(b);
            game.move_piece(from, to)
        },
        MoveEvent::Promotion(a, b, k) => {
            if a >= 64 || b >= 64 {
                return false;
            }
            let kind = match parse_piece(k) {
                Some(PieceType::King) | Some(PieceType::Pawn) | None => {
                    return false;
                },
                Some(kind) => kind,
            };
            let from = parse_index(a);
            let to = parse_index(b);
            let moved = game.move_piece(from, to);
            if moved && game.promotable.is_some() {
                game.promote(kind);
            }
            moved
        },
        MoveEvent::KingsideCastle => game.castle(CastlingSide::KingSide),
        MoveEvent::QueensideCastle => game.castle(CastlingSide::QueenSide),
        MoveEvent::Other => false,
    }
}

/// A square survives being written as an index and read back.
pub proof fn lemma_index_round_trip(x: usize, y: usize)
    requires
        x < 8,
        y < 32,
    ensures
        ((y * 8 + x) as u8) % 8 == x,
        ((y * 8 + x) as u8) / 8 == y,
{
    assert((y * 8 + x) % 8 == x && (y * 8 + x) / 8 == y) by (nonlinear_arith)
        requires
            x < 8,
            y < 32,
    ;
}

/// A buffer that starts with the bytes of an event other than a disconnection or an unknown move
/// reads back as that event.
pub proof fn lemma_event_round_trip(e: NetEvent, b: Seq<u8>)
    requires
        e != NetEvent::Disconnect,
        e != NetEvent::Move(MoveEvent::Other),
        b.len() >= 5,
        b.subrange(0, event_bytes(e).len() as int) == event_bytes(e),
    ensures
        event_of(b) == e,
{
    let n = event_bytes(e).len() as int;
    assert forall|k: int| 0 <= k < n implies b[k] == #[trigger] event_bytes(e)[k] by {
        assert(b.subrange(0, n)[k] == b[k]);
    }
    match e {
        NetEvent::Move(mv) => match mv {
            MoveEvent::Standard(x, y) => {
                assert(event_bytes(e) =~= seq![1u8, 0u8, x, y]);
                assert(b[0] == 1 && b[1] == 0 && b[2] == x && b[3] == y);
            },
            MoveEvent::EnPassant(x, y) => {
                assert(event_bytes(e) =~= seq![1u8, 1u8, x, y]);
                assert(b[0] == 1 && b[1] == 1 && b[2] == x && b[3] == y);
            },
            MoveEvent::Promotion(x, y, k) => {
                assert(event_bytes(e) =~= seq![1u8, 2u8, x, y, k]);
                assert(b[0] == 1 && b[1] == 2 && b[2] == x && b[3] == y && b[4] == k);
            },
            MoveEvent::KingsideCastle => {
                assert(event_bytes(e) =~= seq![1u8, 3u8]);
                assert(b[0] == 1 && b[1] == 3);
            },
            MoveEvent::QueensideCastle => {
                assert(event_bytes(e) =~= seq![1u8, 4u8]);
                assert(b[0] == 1 && b[1] == 4);
            },
            MoveEvent::Other => {},
        },
        _ => {
            assert(b[0] == event_bytes(e)[0]);
        },
    }
}

} // verus!
