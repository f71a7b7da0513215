use chess_engine::network::{
    encode_event, encode_index, encode_piece, parse_incoming, parse_index, parse_piece, MoveEvent, NetEvent,
};
use chess_engine::piece::PieceType;

fn buffer_of(bytes: &[u8]) -> [u8; 32] {
    let mut buf = [0u8; 32];
    buf[..bytes.len()].copy_from_slice(bytes);
    buf
}

#[test]
fn index_round_trip() {
    assert_eq!(encode_index((4, 1)), 12);
    assert_eq!(parse_index(12), (4, 1));
    assert_eq!(parse_index(63), (7, 7));
    for x in 0..8 {
        for y in 0..8 {
            assert_eq!(parse_index(encode_index((x, y))), (x, y));
        }
    }
}

#[test]
fn piece_codes() {
    assert_eq!(encode_piece(PieceType::Pawn), 0);
    assert_eq!(encode_piece(PieceType::Queen), 4);
    assert_eq!(parse_piece(3), Some(PieceType::Rook));
    assert_eq!(parse_piece(5), Some(PieceType::King));
    assert_eq!(parse_piece(6), None);
    for k in [
        PieceType::Pawn,
        PieceType::Knight,
        PieceType::Bishop,
        PieceType::Rook,
        PieceType::Queen,
        PieceType::King,
    ] {
        assert_eq!(parse_piece(encode_piece(k)), Some(k));
    }
}

#[test]
fn event_bytes() {
    assert_eq!(encode_event(NetEvent::Decline), vec![0]);
    assert_eq!(encode_event(NetEvent::Move(MoveEvent::Standard(12, 28))), vec![1, 0, 12, 28]);
    assert_eq!(encode_event(NetEvent::Move(MoveEvent::EnPassant(36, 43))), vec![1, 1, 36, 43]);
    assert_eq!(encode_event(NetEvent::Move(MoveEvent::Promotion(48, 56, 4))), vec![1, 2, 48, 56, 4]);
    assert_eq!(encode_event(NetEvent::Move(MoveEvent::KingsideCastle)), vec![1, 3]);
    assert_eq!(encode_event(NetEvent::Move(MoveEvent::QueensideCastle)), vec![1, 4]);
    assert_eq!(encode_event(NetEvent::Resign), vec![6]);
    assert!(encode_event(NetEvent::Disconnect).is_empty());
}

#[test]
fn events_read_back() {
    let events = [
        NetEvent::Decline,
        NetEvent::Move(MoveEvent::Standard(12, 28)),
        NetEvent::Move(MoveEvent::EnPassant(36, 43)),
        NetEvent::Move(MoveEvent::Promotion(48, 56, 4)),
        NetEvent::Move(MoveEvent::KingsideCastle),
        NetEvent::Move(MoveEvent::QueensideCastle),
        NetEvent::Undo,
        NetEvent::Accept,
        NetEvent::Checkmate,
        NetEvent::Draw,
        NetEvent::Resign,
    ];
    for e in events {
        assert_eq!(parse_incoming(&buffer_of(&encode_event(e))), e);
    }
    assert_eq!(parse_incoming(&buffer_of(&[9])), NetEvent::Disconnect);
    assert_eq!(parse_incoming(&buffer_of(&[1, 7])), NetEvent::Move(MoveEvent::Other));
}
