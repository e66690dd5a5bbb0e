use crate::bitboard::{lemma_has_bit_algebra, lemma_has_bit_single};
use crate::board::{kind_of_letter, letter_at, piece_kind, Board, Castling, GameState};
use crate::piece::Pieces;
use vstd::prelude::*;

verus! {

/// Whether `c` separates the fields of a record: the characters that
/// Unicode lists as white space.
pub open spec fn is_whitespace(c: char) -> bool {
    let code = c as u32;
    ||| 0x09 <= code <= 0x0D
    ||| code == 0x20
    ||| code == 0x85
    ||| code == 0xA0
    ||| code == 0x1680
    ||| 0x2000 <= code <= 0x200A
    ||| code == 0x2028
    ||| code == 0x2029
    ||| code == 0x202F
    ||| code == 0x205F
    ||| code == 0x3000
}

/// The first position at or after `from` where a run ends: a run of white
/// space where `over_space` holds, a run of other characters where it does
/// not.
pub open spec fn scan(text: Seq<char>, from: int, over_space: bool) -> int
    decreases text.len() - from,
{
    if 0 <= from < text.len() && is_whitespace(text[from]) == over_space {
        scan(text, from + 1, over_space)
    } else {
        from
    }
}

/// Where field number `n` of a text starts and where it ends. The fields
/// are the runs of characters between white space, counted from 0. A field
/// that the text does not have starts at the end of the text.
pub open spec fn field_bounds(text: Seq<char>, n: nat) -> (int, int)
    decreases n,
{
    let from = if n == 0 {
        0
    } else {
        field_bounds(text, (n - 1) as nat).1
    };
    let start = scan(text, from, true);
    (start, scan(text, start, false))
}

/// Field number `n` of a text, where the text has that many fields.
pub open spec fn field(text: Seq<char>, n: nat) -> Option<Seq<char>> {
    let (start, end) = field_bounds(text, n);
    if 0 <= start < text.len() {
        Some(text.subrange(start, end))
    } else {
        None
    }
}

/// A run ends at or after the place where the scan began, and within the
/// text.
pub proof fn lemma_scan_bounds(text: Seq<char>, from: int, over_space: bool)
    requires
        0 <= from <= text.len(),
    ensures
        from <= scan(text, from, over_space) <= text.len(),
    decreases text.len() - from,
{
    if from < text.len() && is_whitespace(text[from]) == over_space {
        lemma_scan_bounds(text, from + 1, over_space);
    }
}

/// Every field lies within the text, and a field that the text has is not
/// empty.
pub proof fn lemma_field_bounds(text: Seq<char>, n: nat)
    ensures
        0 <= field_bounds(text, n).0 <= field_bounds(text, n).1 <= text.len(),
        field_bounds(text, n).0 < text.len() ==> field_bounds(text, n).0 < field_bounds(text, n).1,
    decreases n,
{
    let from = if n == 0 {
        0
    } else {
        lemma_field_bounds(text, (n - 1) as nat);
        field_bounds(text, (n - 1) as nat).1
    };
    lemma_scan_bounds(text, from, true);
    let start = scan(text, from, true);
    lemma_scan_bounds(text, start, false);
    if start < text.len() {
        assert(!is_whitespace(text[start])) by {
            lemma_scan_stops(text, from, true);
        }
        lemma_scan_bounds(text, start + 1, false);
    }
}

/// Where a scan stops before the end of the text, the character there does
/// not belong to the run.
pub proof fn lemma_scan_stops(text: Seq<char>, from: int, over_space: bool)
    requires
        0 <= from <= text.len(),
    ensures
        scan(text, from, over_space) < text.len() ==> is_whitespace(
            text[scan(text, from, over_space)],
        ) != over_space,
    decreases text.len() - from,
{
    if from < text.len() && is_whitespace(text[from]) == over_space {
        lemma_scan_stops(text, from + 1, over_space);
    }
}

/// Whether `c` separates the fields of a record.
pub fn separates(c: char) -> (space: bool)
    ensures
        space == is_whitespace(c),
{
    let code = c as u32;
    (0x09 <= code && code <= 0x0D) || code == 0x20 || code == 0x85 || code == 0xA0 || code
        == 0x1680 || (0x2000 <= code && code <= 0x200A) || code == 0x2028 || code == 0x2029 || code
        == 0x202F || code == 0x205F || code == 0x3000
}

/// The characters of a text, in their order.
pub fn text_chars(text: &str) -> (chars: Vec<char>)
    ensures
        chars@ == text@,
{
    let mut chars: Vec<char> = Vec::new();
    for c in it: text.chars()
        invariant
            chars@ == it.seq().take(it.index() as int),
            it.seq() == text@,
    {
        chars.push(c);
    }
    chars
}

/// The end of the run that starts at `from`.
fn run_end(chars: &Vec<char>, from: usize, over_space: bool) -> (end: usize)
    requires
        from <= chars.len(),
    ensures
        end == scan(chars@, from as int, over_space),
        from <= end <= chars.len(),
{
    let mut end = from;
    while end < chars.len() && separates(chars[end]) == over_space
        invariant
            from <= end <= chars.len(),
            scan(chars@, end as int, over_space) == scan(chars@, from as int, over_space),
        decreases chars.len() - end,
    {
        end += 1;
    }
    end
}

/// The part of `chars` from `start` up to `end`, `end` left out.
fn copy_range(chars: &Vec<char>, start: usize, end: usize) -> (part: Vec<char>)
    requires
        start <= end <= chars.len(),
    ensures
        part@ == chars@.subrange(start as int, end as int),
{
    let mut part: Vec<char> = Vec::new();
    let mut i = start;
    while i < end
        invariant
            start <= i <= end <= chars.len(),
            part@ == chars@.subrange(start as int, i as int),
        decreases end - i,
    {
        part.push(chars[i]);
        i += 1;
    }
    part
}

/// The number that a digit stands for.
pub open spec fn digit_value(c: char) -> int {
    c as u32 - '0' as u32
}

/// Whether `c` is one of the digits from `low` to `high`.
pub open spec fn is_digit_between(c: char, low: int, high: int) -> bool {
    low <= digit_value(c) <= high
}

/// The diagram that a placement field spells out: a piece letter fills the
/// next square, a digit from 1 to 8 leaves that many squares empty, and
/// any other character, the stroke between two rows among them, fills
/// nothing.
pub open spec fn diagram(placement: Seq<char>) -> Seq<char>
    decreases placement.len(),
{
    if placement.len() == 0 {
        Seq::empty()
    } else {
        let earlier = diagram(placement.drop_last());
        let c = placement.last();
        if piece_kind(c) is Some {
            earlier.push(c)
        } else if is_digit_between(c, 1, 8) {
            earlier + Seq::new(digit_value(c) as nat, |i: int| '.')
        } else {
            earlier
        }
    }
}

/// Whether a placement field can be laid out: every piece lands on one of
/// the 64 squares, and the count of squares never leaves the range of a
/// byte.
pub open spec fn placement_fits(placement: Seq<char>) -> bool
    decreases placement.len(),
{
    if placement.len() == 0 {
        true
    } else {
        let filled = diagram(placement.drop_last()).len();
        let c = placement.last();
        &&& placement_fits(placement.drop_last())
        &&& piece_kind(c) is Some ==> filled < 64
        &&& piece_kind(c) is None && is_digit_between(c, 1, 8) ==> filled + digit_value(c) <= 255
    }
}

/// Lays the pieces of a placement field out on an empty board, and says
/// whether the field could be laid out.
fn place_pieces(board: &mut Board, placement: &Vec<char>) -> (fits: bool)
    requires
        old(board).shows(Seq::empty()),
    ensures
        fits == placement_fits(placement@),
        fits ==> final(board).shows(diagram(placement@)),
        final(board).game_state == old(board).game_state,
{
    let mut square_index: u8 = 0;
    let mut i: usize = 0;
    while i < placement.len()
        invariant
            i <= placement.len(),
            placement_fits(placement@.take(i as int)),
            square_index == diagram(placement@.take(i as int)).len(),
            board.shows(diagram(placement@.take(i as int))),
            board.game_state == old(board).game_state,
        decreases placement.len() - i,
    {
        let piece = placement[i];
        let ghost read = placement@.take(i as int);
        let ghost shown = diagram(read);
        let ghost before = *board;
        proof {
            assert(placement@.take(i + 1).drop_last() =~= read);
            lemma_placement_fits_prefix(placement@, i + 1);
        }
        if kind_of_letter(piece).is_some() {
            if square_index >= 64 {
                return false;
            }
            board.add_piece(piece, square_index);
            proof {
                lemma_has_bit_algebra();
                let longer = shown.push(piece);
                assert forall|square: int| 0 <= square < 64 implies #[trigger] board.shows_at(
                    longer,
                    square,
                ) by {
                    lemma_has_bit_single(square_index as int, square);
                    assert(before.shows_at(shown, square));
                    assert forall|kind: Pieces| #[trigger]
                        board.holds(kind, square) <==> piece_kind(letter_at(longer, square))
                            == Some(kind) by {
                        assert(before.holds(kind, square) <==> piece_kind(letter_at(shown, square))
                            == Some(kind));
                    }
                }
            }
            square_index += 1;
        } else if '1' as u32 <= piece as u32 && piece as u32 <= '8' as u32 {
            let num = piece as u32 - '0' as u32;
            if square_index as u32 + num > 255 {
                return false;
            }
            proof {
                let longer = shown + Seq::new(num as nat, |i: int| '.');
                assert forall|square: int| 0 <= square < 64 implies #[trigger] board.shows_at(
                    longer,
                    square,
                ) by {
                    assert(board.shows_at(shown, square));
                }
            }
            square_index += num as u8;
        }
        i += 1;
    }
    assert(placement@.take(i as int) =~= placement@);
    true
}

/// A placement field that can be laid out can be laid out up to any of its
/// characters, and one that cannot be laid out up to some character cannot
/// be laid out as a whole.
pub proof fn lemma_placement_fits_prefix(placement: Seq<char>, n: int)
    requires
        0 <= n <= placement.len(),
    ensures
        placement_fits(placement) ==> placement_fits(placement.take(n)),
    decreases placement.len(),
{
    if n < placement.len() {
        assert(placement.drop_last().take(n) =~= placement.take(n));
        lemma_placement_fits_prefix(placement.drop_last(), n);
    } else {
        assert(placement.take(n) =~= placement);
    }
}

/// Whether `wanted` occurs in `chars`.
fn has_char(chars: &Vec<char>, wanted: char) -> (found: bool)
    ensures
        found == chars@.contains(wanted),
{
    let mut i: usize = 0;
    while i < chars.len()
        invariant
            i <= chars.len(),
            forall|k: int| 0 <= k < i ==> chars@[k] != wanted,
        decreases chars.len() - i,
    {
        if chars[i] == wanted {
            return true;
        }
        i += 1;
    }
    false
}

/// The castling rights that a castling field grants: a right is open where
/// its letter occurs in the field, K and Q for white, k and q for black.
pub open spec fn castling_of(rights: Seq<char>) -> Castling {
    Castling {
        white_queen_side: rights.contains('Q'),
        white_king_side: rights.contains('K'),
        black_queen_side: rights.contains('q'),
        black_king_side: rights.contains('k'),
    }
}

/// Whether a text names a square: a column letter from a to i, then a row
/// digit from 0 to 8. What follows the two characters is not read.
pub open spec fn is_square_name(name: Seq<char>) -> bool {
    &&& name.len() >= 2
    &&& 0 <= name[0] as u32 - 'a' as u32 <= 8
    &&& is_digit_between(name[1], 0, 8)
}

/// The number of the square that a name stands for: the rows are counted
/// down from the eighth, which holds the squares 0 to 7, and the columns
/// from a, so that a8 is square 0 and h1 is square 63.
pub open spec fn square_number(name: Seq<char>) -> int {
    (64 - digit_value(name[1]) * 8) + (name[0] as u32 - 'a' as u32)
}

/// Whether `chars` names a square.
fn names_square(chars: &Vec<char>) -> (named: bool)
    ensures
        named == is_square_name(chars@),
{
    if chars.len() < 2 {
        return false;
    }
    let column = chars[0] as u32;
    let row = chars[1] as u32;
    'a' as u32 <= column && column <= 'i' as u32 && '0' as u32 <= row && row <= '8' as u32
}

/// The number of the square that `chars` names.
fn number_of_square(chars: &Vec<char>) -> (number: u32)
    requires
        is_square_name(chars@),
    ensures
        number == square_number(chars@),
{
    let row_num = chars[1] as u32 - '0' as u32;
    let col_num = chars[0] as u32 - 'a' as u32;
    (64 - (row_num * 8)) + col_num
}

/// The number of the square that a name such as `e4` stands for.
pub fn square_to_num(square: String) -> (number: u32)
    requires
        is_square_name(square@),
    ensures
        number == square_number(square@),
{
    let chars = text_chars(square.as_str());
    number_of_square(&chars)
}

/// The en-passant target that a field names: none where the field holds a
/// dash, else the square that it names. A field that holds neither names
/// nothing.
pub open spec fn en_passant_of(target: Seq<char>) -> Option<Option<u32>> {
    if target.contains('-') {
        Some(None)
    } else if is_square_name(target) {
        Some(Some(square_number(target) as u32))
    } else {
        None
    }
}

/// The number that a run of digits stands for in base ten.
pub open spec fn digits_value(digits: Seq<char>) -> int
    decreases digits.len(),
{
    if digits.len() == 0 {
        0
    } else {
        digits_value(digits.drop_last()) * 10 + digit_value(digits.last())
    }
}

/// Whether a text holds digits only.
pub open spec fn all_digits(digits: Seq<char>) -> bool {
    forall|i: int| 0 <= i < digits.len() ==> is_digit_between(#[trigger] digits[i], 0, 9)
}

/// The digits of a counter: the text itself, or what follows a leading
/// plus sign.
pub open spec fn counter_digits(text: Seq<char>) -> Seq<char> {
    if text.len() > 0 && text[0] == '+' {
        text.drop_first()
    } else {
        text
    }
}

/// The counter that a text stands for: one or more digits, which a plus
/// sign may precede, whose number fits in 32 bits.
pub open spec fn counter_of(text: Seq<char>) -> Option<u32> {
    let digits = counter_digits(text);
    if digits.len() > 0 && all_digits(digits) && digits_value(digits) <= u32::MAX {
        Some(digits_value(digits) as u32)
    } else {
        None
    }
}

/// A run of digits stands for no less than any run that it starts with.
pub proof fn lemma_digits_value_grows(digits: Seq<char>, n: int)
    requires
        all_digits(digits),
        0 <= n <= digits.len(),
    ensures
        0 <= digits_value(digits.take(n)) <= digits_value(digits),
    decreases digits.len(),
{
    if n == digits.len() {
        assert(digits.take(n) =~= digits);
        if n > 0 {
            lemma_digits_value_grows(digits.drop_last(), n - 1);
        }
    } else {
        assert(digits.drop_last().take(n) =~= digits.take(n));
        lemma_digits_value_grows(digits.drop_last(), n);
    }
}

/// The counter that `chars` stands for.
fn read_counter(chars: &Vec<char>) -> (counter: Option<u32>)
    ensures
        counter == counter_of(chars@),
{
    let start: usize = if chars.len() > 0 && chars[0] == '+' {
        1
    } else {
        0
    };
    let ghost digits = counter_digits(chars@);
    if start == chars.len() {
        return None;
    }
    let mut value: u64 = 0;
    let mut i: usize = start;
    while i < chars.len()
        invariant
            start <= i <= chars.len(),
            digits == counter_digits(chars@),
            digits == chars@.subrange(start as int, chars.len() as int),
            all_digits(digits.take(i - start)),
            value == digits_value(digits.take(i - start)),
            value <= u32::MAX,
        decreases chars.len() - i,
    {
        let code = chars[i] as u32;
        let ghost read = digits.take(i - start);
        proof {
            assert(digits.take(i + 1 - start).drop_last() =~= read);
            assert(digits.take(i + 1 - start).last() == chars[i as int]);
        }
        if code < '0' as u32 || code > '9' as u32 {
            return None;
        }
        value = value * 10 + (code - '0' as u32) as u64;
        proof {
            assert forall|k: int| 0 <= k < i + 1 - start implies is_digit_between(
                #[trigger] digits.take(i + 1 - start)[k],
                0,
                9,
            ) by {}
        }
        if value > u32::MAX as u64 {
            proof {
                if all_digits(digits) {
                    lemma_digits_value_grows(digits, i + 1 - start);
                }
            }
            return None;
        }
        i += 1;
    }
    assert(digits.take(i - start) =~= digits);
    Some(value as u32)
}

/// Whether a text is a record of a position: six fields or more, of which
/// the first can be laid out on the board, the fourth names an en-passant
/// target or holds a dash, and the fifth and sixth are counters.
pub open spec fn is_fen(text: Seq<char>) -> bool {
    &&& field(text, 5) is Some
    &&& placement_fits(field(text, 0)->0)
    &&& en_passant_of(field(text, 3)->0) is Some
    &&& counter_of(field(text, 4)->0) is Some
    &&& counter_of(field(text, 5)->0) is Some
}

/// The state of the game that a record gives beside the placement: white
/// is to move where the second field is `w`, the third field grants the
/// castling rights, the fourth names the en-passant target, the fifth
/// counts the half moves and the sixth the full moves.
pub open spec fn game_state_of(text: Seq<char>) -> GameState {
    GameState {
        white_turn: field(text, 1)->0 == seq!['w'],
        en_passant: en_passant_of(field(text, 3)->0)->0,
        castling: castling_of(field(text, 2)->0),
        half_moves: counter_of(field(text, 4)->0)->0,
        full_moves: counter_of(field(text, 5)->0)->0,
    }
}

/// Field number `n`, given where the field before it ends. A field that
/// the text does not have comes back empty.
fn next_field(chars: &Vec<char>, n: usize, from: usize) -> (found: (Vec<char>, usize))
    requires
        from <= chars.len(),
        from == if n == 0 {
            0
        } else {
            field_bounds(chars@, (n - 1) as nat).1
        },
    ensures
        found.1 == field_bounds(chars@, n as nat).1,
        found.1 <= chars.len(),
        found.0@.len() > 0 <==> field(chars@, n as nat) is Some,
        field(chars@, n as nat) is Some ==> found.0@ == field(chars@, n as nat)->0,
{
    let start = run_end(chars, from, true);
    let end = run_end(chars, start, false);
    proof {
        lemma_field_bounds(chars@, n as nat);
    }
    (copy_range(chars, start, end), end)
}

impl Board {
    /// Reads a record of a position, or says that the text is none.
    pub fn read_fen(fen_string: &str) -> (read: Option<Board>)
        ensures
            read is Some <==> is_fen(fen_string@),
            read is Some ==> {
                &&& read->0.wf()
                &&& read->0.shows(diagram(field(fen_string@, 0)->0))
                &&& read->0.game_state == game_state_of(fen_string@)
            },
    {
        let chars = text_chars(fen_string);
        let (pieces, end) = next_field(&chars, 0, 0);
        let (active, end) = next_field(&chars, 1, end);
        let (castling_rights, end) = next_field(&chars, 2, end);
        let (en_passant, end) = next_field(&chars, 3, end);
        let (half_moves, end) = next_field(&chars, 4, end);
        let (full_moves, _) = next_field(&chars, 5, end);
        if full_moves.len() == 0 {
            return None;
        }
        proof {
            lemma_field_order(chars@, 5);
            lemma_field_order(chars@, 4);
            lemma_field_order(chars@, 3);
            lemma_field_order(chars@, 2);
            lemma_field_order(chars@, 1);
        }
        let is_white_active_color = active.len() == 1 && active[0] == 'w';
        assert(is_white_active_color <==> active@ =~= seq!['w']);
        let castling = Castling {
            white_king_side: has_char(&castling_rights, 'K'),
            white_queen_side: has_char(&castling_rights, 'Q'),
            black_king_side: has_char(&castling_rights, 'k'),
            black_queen_side: has_char(&castling_rights, 'q'),
        };
        let en_passant_square_num: Option<u32> = if has_char(&en_passant, '-') {
            None
        } else if names_square(&en_passant) {
            Some(number_of_square(&en_passant))
        } else {
            return None;
        };
        let half_moves = match read_counter(&half_moves) {
            Some(count) => count,
            None => {
                return None;
            },
        };
        let full_moves = match read_counter(&full_moves) {
            Some(count) => count,
            None => {
                return None;
            },
        };
        let mut board = Board {
            game_state: GameState {
                white_turn: is_white_active_color,
                castling,
                en_passant: en_passant_square_num,
                half_moves,
                full_moves,
            },
            pieces: [0, 0, 0, 0, 0, 0],
            black_pieces: 0,
            white_pieces: 0,
        };
        proof {
            lemma_has_bit_algebra();
        }
        if !place_pieces(&mut board, &pieces) {
            return None;
        }
        proof {
            lemma_shown_board_is_well_formed(board, diagram(pieces@));
        }
        Some(board)
    }

    /// Reads a record of a position.
    pub fn from_fen(fen_string: &str) -> (board: Board)
        requires
            is_fen(fen_string@),
        ensures
            board.wf(),
            board.shows(diagram(field(fen_string@, 0)->0)),
            board.game_state == game_state_of(fen_string@),
    {
        Board::read_fen(fen_string).unwrap()
    }
}

/// A text that has a field has every field before it.
pub proof fn lemma_field_order(text: Seq<char>, n: nat)
    requires
        n > 0,
        field(text, n) is Some,
    ensures
        field(text, (n - 1) as nat) is Some,
{
    lemma_field_bounds(text, n);
    lemma_field_bounds(text, (n - 1) as nat);
}

/// A board that shows a diagram is well formed: a square has one letter,
/// so it holds one kind of piece at most, and of one side.
pub proof fn lemma_shown_board_is_well_formed(board: Board, diagram: Seq<char>)
    requires
        board.shows(diagram),
    ensures
        board.wf(),
{
    assert forall|square: int| !(board.is_white(square) && #[trigger] board.is_black(square)) by {
        if 0 <= square < 64 {
            assert(board.shows_at(diagram, square));
        }
    }
    assert forall|kind: Pieces, square: int| #[trigger]
        board.holds(kind, square) implies board.is_occupied(square) by {
        assert(board.shows_at(diagram, square));
    }
    assert forall|first: Pieces, second: Pieces, square: int|
        #[trigger] board.holds(first, square) && #[trigger] board.holds(
            second,
            square,
        ) implies first == second by {
        assert(board.shows_at(diagram, square));
    }
}

} // verus!
