use chess_movegen::board::{Board, Castling, GameState};
use chess_movegen::fen::square_to_num;
use chess_movegen::piece::Pieces;

#[test]
fn from_fen_starting_pos() {
    let board = Board::from_fen("rnbqkbnr/pppppppp/8/8/8/8/PPPPPPPP/RNBQKBNR w KQkq - 0 1");

    assert_eq!(
        0b0000000011111111000000000000000000000000000000001111111100000000,
        board.pieces[Pieces::Pawns as usize]
    );
    assert_eq!(
        0b1000000100000000000000000000000000000000000000000000000010000001,
        board.pieces[Pieces::Rooks as usize]
    );
    assert_eq!(
        0b0100001000000000000000000000000000000000000000000000000001000010,
        board.pieces[Pieces::Knights as usize]
    );
    assert_eq!(
        0b0010010000000000000000000000000000000000000000000000000000100100,
        board.pieces[Pieces::Bishops as usize]
    );
    assert_eq!(
        0b0000100000000000000000000000000000000000000000000000000000001000,
        board.pieces[Pieces::Queens as usize]
    );
    assert_eq!(
        0b0001000000000000000000000000000000000000000000000000000000010000,
        board.pieces[Pieces::Kings as usize]
    );
    assert_eq!(
        0b1111111111111111000000000000000000000000000000000000000000000000,
        board.white_pieces
    );
    assert_eq!(
        0b0000000000000000000000000000000000000000000000001111111111111111,
        board.black_pieces
    );

    let expected_game_state = GameState {
        white_turn: true,
        castling: Castling {
            white_king_side: true,
            white_queen_side: true,
            black_king_side: true,
            black_queen_side: true,
        },
        en_passant: None,
        half_moves: 0,
        full_moves: 1,
    };

    assert_eq!(board.game_state, expected_game_state);
}

#[test]
fn from_fen_mid_game() {
    let board = Board::from_fen("r1bk3r/p2pBpNp/n4n2/1p1NP2P/6P1/3P4/P1P1K3/q5b1 b KQkq - 0 1");

    assert_eq!(
        0b0000000000000101000010000100000010010010000000001010100100000000,
        board.pieces[Pieces::Pawns as usize]
    );
    assert_eq!(
        0b0000000000000000000000000000000000000000000000000000000010000001,
        board.pieces[Pieces::Rooks as usize]
    );
    assert_eq!(
        0b0000000000000000000000000000000000001000001000010100000000000000,
        board.pieces[Pieces::Knights as usize]
    );
    assert_eq!(
        0b0100000000000000000000000000000000000000000000000001000000000100,
        board.pieces[Pieces::Bishops as usize]
    );
    assert_eq!(
        0b0000000100000000000000000000000000000000000000000000000000000000,
        board.pieces[Pieces::Queens as usize]
    );
    assert_eq!(
        0b0000000000010000000000000000000000000000000000000000000000001000,
        board.pieces[Pieces::Kings as usize]
    );
    assert_eq!(
        0b0000000000010101000010000100000010011000000000000101000000000000,
        board.white_pieces
    );
    assert_eq!(
        0b0100000100000000000000000000000000000010001000011010100110001101,
        board.black_pieces
    );

    let expected_game_state = GameState {
        white_turn: false,
        castling: Castling {
            white_king_side: true,
            white_queen_side: true,
            black_king_side: true,
            black_queen_side: true,
        },
        en_passant: None,
        half_moves: 0,
        full_moves: 1,
    };
    assert_eq!(board.game_state, expected_game_state);
}

#[test]
fn en_passant_and_castling_rights() {
    let board = Board::from_fen("rnbqkbnr/pppppppp/8/8/8/8/PPPPPPPP/RNBQKBNR b KQ c5 30 44");
    
    let expected_game_state = GameState {
        white_turn: false,
        castling: Castling {
            white_king_side: true,
            white_queen_side: true,
            black_king_side: false,
            black_queen_side: false,
        },
        en_passant: Some(26),
        half_moves: 30,
        full_moves: 44,
    };
    assert_eq!(board.game_state, expected_game_state);
}

#[test]
fn board_display() {
    let result_string = "  a b c d e f g h\n8 r n b q k b n r \n7 p p p p p p p p \n6 . . . . . . . . \n5 . . . . . . . . \n4 . . . . . . . . \n3 . . . . . . . . \n2 P P P P P P P P \n1 R N B Q K B N R \n";

    let board = Board::from_fen("rnbqkbnr/pppppppp/8/8/8/8/PPPPPPPP/RNBQKBNR w KQkq - 0 1");

    assert_eq!(result_string, board.to_string());
}

#[test]
fn transfer_square_to_num() {
    let num = square_to_num("a8".to_string());
    assert_eq!(num, 0);

    let num = square_to_num("e4".to_string());
    assert_eq!(num, 36);

    let num = square_to_num("h2".to_string());
    assert_eq!(num, 55);
}
