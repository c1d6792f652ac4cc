use chess_minimax::Pos;
use chess_minimax::Side;
use chess_minimax::board::Board;
use chess_minimax::piece::Piece;
use chess_minimax::piece::PieceKind;
use chess_minimax::serialize::deserialize_board;
use chess_minimax::serialize::deserialize_pieces;
use chess_minimax::serialize::deserialize_pos;
use chess_minimax::serialize::serialize_board;
use chess_minimax::serialize::serialize_pieces;
use chess_minimax::serialize::serialize_pos;

#[test]
fn pos_byte_round_trip() {
    assert_eq!(serialize_pos(Pos(0, 0)), 0);
    assert_eq!(serialize_pos(Pos(7, 7)), 63);
    assert_eq!(serialize_pos(Pos(3, 2)), 19);
    for byte in 0..64u8 {
        let pos = deserialize_pos(byte).expect("on-board index");
        assert_eq!(serialize_pos(pos), byte);
    }
    assert_eq!(deserialize_pos(64), None);
    assert_eq!(deserialize_pos(255), None);
}

#[test]
fn pieces_byte_round_trip() {
    let pair = [
        Some(Piece::white(PieceKind::Queen)),
        Some(Piece::black(PieceKind::Knight)),
    ];
    let byte = serialize_pieces(&pair);
    // Queen code 5, white bit set: high nibble 11; knight code 2, black: 4.
    assert_eq!(byte, 11 * 16 + 4);
    assert_eq!(deserialize_pieces(byte), pair);

    let empty = [None, None];
    assert_eq!(serialize_pieces(&empty), 0);
    assert_eq!(deserialize_pieces(0), empty);
}

#[test]
fn board_bytes_round_trip() {
    let board = Board::new();
    let bytes = serialize_board(&board);
    assert_eq!(bytes.len(), 33);
    // Flags: no en passant, all four castling rights.
    assert_eq!(bytes[0], 2 + 4 + 8 + 16);
    let back = deserialize_board(&bytes).expect("the bytes round-trip");
    assert_eq!(serialize_board(&back), bytes);
    assert_eq!(back.get(Pos(4, 0)), Some(Piece::black(PieceKind::King)));
}

#[test]
fn board_bytes_round_trip_with_en_passant() {
    let mut board = Board::new();
    board.move_(Pos(4, 6), Pos(4, 4));
    // The target is the passed-over square e3.
    assert_eq!(board.en_passant, Some(Pos(4, 5)));
    let bytes = serialize_board(&board);
    assert_eq!(bytes.len(), 34);
    assert_eq!(bytes[0] & 1, 1);
    assert_eq!(bytes[1], serialize_pos(Pos(4, 5)));
    let back = deserialize_board(&bytes).expect("the bytes round-trip");
    assert_eq!(back.en_passant, Some(Pos(4, 5)));
    assert_eq!(serialize_board(&back), bytes);
}

#[test]
fn deserialize_rejects_wrong_length() {
    assert!(deserialize_board(&[]).is_err());
    assert!(deserialize_board(&[0u8; 32]).is_err());
    assert!(deserialize_board(&[0u8; 34]).is_err());
    // With the en-passant flag set, one extra byte is required.
    let mut with_flag = vec![1u8];
    with_flag.extend(std::iter::repeat(0u8).take(32));
    assert!(deserialize_board(&with_flag).is_err());
}

#[test]
fn deserialize_rejects_bad_en_passant_index() {
    let mut bytes = vec![1u8, 64u8];
    bytes.extend(std::iter::repeat(0u8).take(32));
    assert!(deserialize_board(&bytes).is_err());
}

#[test]
fn deserialize_rejects_unused_piece_code() {
    // Piece code 7 in the high nibble: 7 * 2 = 14 = 0xE.
    let mut bytes = vec![0u8];
    bytes.extend(std::iter::repeat(0u8).take(32));
    bytes[1] = 0xE0;
    assert!(deserialize_board(&bytes).is_err());
    let mut bytes = vec![0u8];
    bytes.extend(std::iter::repeat(0u8).take(32));
    bytes[32] = 0x0F; // and in the low nibble
    assert!(deserialize_board(&bytes).is_err());
}

#[test]
fn deserialize_reads_castling_flags() {
    let mut bytes = vec![2u8]; // only black queenside
    bytes.extend(std::iter::repeat(0u8).take(32));
    let board = deserialize_board(&bytes).expect("well-formed bytes");
    assert!(board.castling(Side::Black).queenside);
    assert!(!board.castling(Side::Black).kingside);
    assert!(!board.castling(Side::White).queenside);
    assert!(!board.castling(Side::White).kingside);
}
