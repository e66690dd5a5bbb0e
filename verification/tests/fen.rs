use chess_movegen::board::{kind_of_letter, Board, Castling, GameState};
use chess_movegen::fen::{separates, square_to_num, text_chars};
use chess_movegen::piece::Pieces;

#[test]
fn read_fen_accepts_the_starting_position() {
    let board = Board::read_fen("rnbqkbnr/pppppppp/8/8/8/8/PPPPPPPP/RNBQKBNR w KQkq - 0 1")
        .expect("a record of a position");
    assert_eq!(board.white_pieces, 0xFFFF_0000_0000_0000);
    assert_eq!(board.black_pieces, 0x0000_0000_0000_FFFF);
    assert_eq!(board.pieces[Pieces::Kings as usize], (1u64 << 4) | (1u64 << 60));
    assert_eq!(board.game_state.full_moves, 1);
}

#[test]
fn read_fen_and_from_fen_agree() {
    let record = "r1bk3r/p2pBpNp/n4n2/1p1NP2P/6P1/3P4/P1P1K3/q5b1 b Kq e3 12 34";
    let read = Board::read_fen(record).expect("a record of a position");
    let board = Board::from_fen(record);
    assert_eq!(read.pieces, board.pieces);
    assert_eq!(read.white_pieces, board.white_pieces);
    assert_eq!(read.black_pieces, board.black_pieces);
    assert_eq!(read.game_state, board.game_state);
    assert_eq!(
        board.game_state,
        GameState {
            white_turn: false,
            en_passant: Some(44),
            castling: Castling {
                white_queen_side: false,
                white_king_side: true,
                black_queen_side: true,
                black_king_side: false,
            },
            half_moves: 12,
            full_moves: 34,
        }
    );
}

#[test]
fn read_fen_refuses_a_record_with_too_few_fields() {
    assert!(Board::read_fen("").is_none());
    assert!(Board::read_fen("   ").is_none());
    assert!(Board::read_fen("8/8/8/8/8/8/8/8").is_none());
    assert!(Board::read_fen("8/8/8/8/8/8/8/8 w - - 0").is_none());
}

#[test]
fn read_fen_reads_more_than_six_fields_and_any_white_space() {
    let board = Board::read_fen("\t8/8/8/8/8/8/8/7K \u{2003} w\n-  -\r\n7 +9 and more")
        .expect("a record of a position");
    assert_eq!(board.white_pieces, 1u64 << 63);
    assert_eq!(board.pieces[Pieces::Kings as usize], 1u64 << 63);
    assert_eq!(board.game_state.half_moves, 7);
    assert_eq!(board.game_state.full_moves, 9);
    assert!(board.game_state.white_turn);
}

#[test]
fn read_fen_refuses_a_piece_beyond_the_last_square() {
    assert!(Board::read_fen("8/8/8/8/8/8/8/8/P w - - 0 1").is_none());
    assert!(Board::read_fen("8/8/8/8/8/8/8/7PP w - - 0 1").is_none());
    assert!(Board::read_fen("8/8/8/8/8/8/8/7P w - - 0 1").is_some());
}

#[test]
fn read_fen_counts_empty_squares_up_to_a_byte() {
    let thirty_one_rows = "8/".repeat(31);
    let fits = format!("{}7 w - - 0 1", thirty_one_rows);
    let too_long = format!("{}8 w - - 0 1", thirty_one_rows);
    assert!(Board::read_fen(&fits).is_some());
    assert!(Board::read_fen(&too_long).is_none());
}

#[test]
fn read_fen_skips_what_is_neither_a_piece_nor_a_count() {
    let board = Board::read_fen("x9k0-7/8/8/8/8/8/8/8 w - - 0 1").expect("a record of a position");
    assert_eq!(board.black_pieces, 1);
    assert_eq!(board.pieces[Pieces::Kings as usize], 1);
    assert_eq!(board.white_pieces, 0);
}

#[test]
fn read_fen_refuses_an_en_passant_field_that_names_no_square() {
    assert!(Board::read_fen("8/8/8/8/8/8/8/8 w - e 0 1").is_none());
    assert!(Board::read_fen("8/8/8/8/8/8/8/8 w - j3 0 1").is_none());
    assert!(Board::read_fen("8/8/8/8/8/8/8/8 w - e9 0 1").is_none());
    assert!(Board::read_fen("8/8/8/8/8/8/8/8 w - 3e 0 1").is_none());
    let board = Board::read_fen("8/8/8/8/8/8/8/8 w - e3 0 1").expect("a record of a position");
    assert_eq!(board.game_state.en_passant, Some(44));
    let board = Board::read_fen("8/8/8/8/8/8/8/8 w - e3- 0 1").expect("a record of a position");
    assert_eq!(board.game_state.en_passant, None);
}

#[test]
fn read_fen_refuses_counters_that_are_no_numbers() {
    assert!(Board::read_fen("8/8/8/8/8/8/8/8 w - - x 1").is_none());
    assert!(Board::read_fen("8/8/8/8/8/8/8/8 w - - 0 -1").is_none());
    assert!(Board::read_fen("8/8/8/8/8/8/8/8 w - - + 1").is_none());
    assert!(Board::read_fen("8/8/8/8/8/8/8/8 w - - 1+ 1").is_none());
    assert!(Board::read_fen("8/8/8/8/8/8/8/8 w - - 0 4294967296").is_none());
    assert!(Board::read_fen("8/8/8/8/8/8/8/8 w - - 0 99999999999999999999999").is_none());
    let board = Board::read_fen("8/8/8/8/8/8/8/8 w - - 0004294967295 +0")
        .expect("a record of a position");
    assert_eq!(board.game_state.half_moves, 4294967295);
    assert_eq!(board.game_state.full_moves, 0);
}

#[test]
fn active_colour_is_white_only_for_a_single_w() {
    assert!(Board::from_fen("8/8/8/8/8/8/8/8 w - - 0 1").game_state.white_turn);
    assert!(!Board::from_fen("8/8/8/8/8/8/8/8 b - - 0 1").game_state.white_turn);
    assert!(!Board::from_fen("8/8/8/8/8/8/8/8 W - - 0 1").game_state.white_turn);
    assert!(!Board::from_fen("8/8/8/8/8/8/8/8 ww - - 0 1").game_state.white_turn);
}

#[test]
fn castling_rights_are_read_letter_by_letter() {
    let state = Board::from_fen("8/8/8/8/8/8/8/8 w qK - 0 1").game_state;
    assert_eq!(
        state.castling,
        Castling {
            white_queen_side: false,
            white_king_side: true,
            black_queen_side: true,
            black_king_side: false,
        }
    );
    let state = Board::from_fen("8/8/8/8/8/8/8/8 w - - 0 1").game_state;
    assert_eq!(
        state.castling,
        Castling {
            white_queen_side: false,
            white_king_side: false,
            black_queen_side: false,
            black_king_side: false,
        }
    );
}

#[test]
fn square_names_count_rows_from_the_eighth_rank() {
    assert_eq!(square_to_num("a8".to_string()), 0);
    assert_eq!(square_to_num("h8".to_string()), 7);
    assert_eq!(square_to_num("a1".to_string()), 56);
    assert_eq!(square_to_num("h1".to_string()), 63);
    assert_eq!(square_to_num("c5".to_string()), 26);
    assert_eq!(square_to_num("e4 and more".to_string()), 36);
    assert_eq!(square_to_num("i1".to_string()), 64);
    assert_eq!(square_to_num("a0".to_string()), 64);
}

#[test]
fn text_chars_keeps_every_character() {
    assert_eq!(text_chars(""), Vec::<char>::new());
    assert_eq!(text_chars("a8 \u{e9}\u{2003}"), vec!['a', '8', ' ', '\u{e9}', '\u{2003}']);
}

#[test]
fn separates_agrees_with_the_white_space_of_the_standard_library() {
    for code in 0..0x11_0000u32 {
        if let Some(c) = char::from_u32(code) {
            assert_eq!(separates(c), c.is_whitespace(), "code {:#x}", code);
        }
    }
}

#[test]
fn letters_stand_for_kinds_in_either_case() {
    assert_eq!(kind_of_letter('p'), Some(Pieces::Pawns));
    assert_eq!(kind_of_letter('P'), Some(Pieces::Pawns));
    assert_eq!(kind_of_letter('r'), Some(Pieces::Rooks));
    assert_eq!(kind_of_letter('N'), Some(Pieces::Knights));
    assert_eq!(kind_of_letter('b'), Some(Pieces::Bishops));
    assert_eq!(kind_of_letter('Q'), Some(Pieces::Queens));
    assert_eq!(kind_of_letter('k'), Some(Pieces::Kings));
    assert_eq!(kind_of_letter('x'), None);
    assert_eq!(kind_of_letter('1'), None);
    assert_eq!(kind_of_letter('/'), None);
}
