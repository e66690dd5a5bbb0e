use crate::attack_rays::{
    create_attack_rays, is_attack_table, lemma_ray_order, lemma_ray_split, on_ray,
};
use crate::bitboard::{
    file_of, has_bit, lemma_empty_bitboard, lemma_has_bit_algebra, lemma_has_bit_masks,
    lemma_has_bit_shl, lemma_has_bit_shr, lemma_has_bit_single, lemma_lowest_square, row_of,
    Bitboard, FILE_A, FILE_B, FILE_G, FILE_H, RANK4, RANK5,
};
use crate::board::Board;
use crate::chess_move::Move;
use crate::direction::Direction;
use crate::listing::{
    ascending_where, lemma_ascending_where_agree, lemma_ascending_where_contents,
    lemma_ascending_where_gap, lemma_ascending_where_skip, lemma_flatten_holds,
    lemma_flatten_member, lemma_moves_of_each_push, members, moves_of_each, moves_to,
};
use crate::piece::Pieces;
use crate::sliding::{lemma_first_blocker, path_is_clear, slide_reaches, slide_targets};
use vstd::prelude::*;

verus! {

/// Appends one move from `from` to every square of `targets`, lowest first.
fn push_moves(moves: &mut Vec<Move>, from: u32, targets: Bitboard, piece: Pieces)
    ensures
        final(moves)@ == old(moves)@ + moves_to(
            from as int,
            piece,
            ascending_where(members(targets), 64),
        ),
{
    let mut remaining = targets;
    let ghost mut done: int = 0;
    while remaining > 0
        invariant
            0 <= done <= 64,
            forall|square: int|
                has_bit(remaining, square) <==> has_bit(targets, square) && square >= done,
            moves@ == old(moves)@ + moves_to(
                from as int,
                piece,
                ascending_where(members(targets), done),
            ),
        decreases 64 - done,
    {
        let to = remaining.trailing_zeros();
        proof {
            lemma_lowest_square(remaining);
            lemma_has_bit_algebra();
            lemma_ascending_where_skip(members(targets), done, to as int);
            assert forall|square: int|
                has_bit(remaining & !(1u64 << to), square) <==> has_bit(targets, square) && square
                    >= to + 1 by {
                lemma_has_bit_single(to as int, square);
            }
        }
        moves.push(Move { from, to, piece });
        remaining &= !(1u64 << to);
        proof {
            done = to + 1;
        }
    }
    proof {
        lemma_empty_bitboard(remaining);
        lemma_ascending_where_skip(members(targets), done, 64);
    }
}

/// The squares that a slider on `from` reaches in `direction`, as a
/// predicate on squares.
pub open spec fn reached_by_slide(
    board: Board,
    white_turn: bool,
    from: int,
    direction: Direction,
) -> spec_fn(int) -> bool {
    |to: int| slide_reaches(board.occupied(), board.own_mask(white_turn), from, direction, to)
}

/// The moves of a slider on `from` in each direction: the squares that it
/// reaches there, lowest first.
pub open spec fn slide_moves(board: Board, white_turn: bool, piece: Pieces, from: int) -> spec_fn(
    Direction,
) -> Seq<Move> {
    |direction: Direction|
        moves_to(
            from,
            piece,
            ascending_where(reached_by_slide(board, white_turn, from, direction), 64),
        )
}

/// The moves of a slider on each origin: those of the first direction, then
/// those of the second, and so on.
pub open spec fn slider_moves_from(
    board: Board,
    white_turn: bool,
    piece: Pieces,
    directions: Seq<Direction>,
) -> spec_fn(int) -> Seq<Move> {
    |from: int| directions.map_values(slide_moves(board, white_turn, piece, from)).flatten()
}

/// The squares that hold a piece of kind `piece` of the side to move, as a
/// predicate on squares.
pub open spec fn is_origin(board: Board, white_turn: bool, piece: Pieces) -> spec_fn(int) -> bool {
    |square: int| board.holds(piece, square) && board.is_own(white_turn, square)
}

/// The moves of all sliders of kind `piece` of the side to move, the
/// sliders taken from the lowest square to the highest.
pub open spec fn slider_moves(
    board: Board,
    white_turn: bool,
    piece: Pieces,
    directions: Seq<Direction>,
) -> Seq<Move> {
    moves_of_each(
        ascending_where(is_origin(board, white_turn, piece), 64),
        slider_moves_from(board, white_turn, piece, directions),
    )
}

/// The directions of a rook, in the order in which its moves are listed.
pub open spec fn rook_directions() -> Seq<Direction> {
    seq![Direction::North, Direction::East, Direction::South, Direction::West]
}

/// The directions of a bishop, in the order in which its moves are listed.
pub open spec fn bishop_directions() -> Seq<Direction> {
    seq![Direction::NorthEast, Direction::SouthEast, Direction::SouthWest, Direction::NorthWest]
}

/// The pseudo-legal moves of the sliders of kind `piece` that move along
/// `directions`, read off the attack-ray table `rays`: for each slider
/// from the lowest square to the highest, the squares that it reaches in
/// the first direction, then in the second, and so on, from the lowest
/// square to the highest within one direction.
pub fn sliding_moves(
    rays: &[[Bitboard; 8]; 64],
    board: &Board,
    white_turn: bool,
    piece: Pieces,
    directions: [Direction; 4],
) -> (moves: Vec<Move>)
    requires
        is_attack_table(*rays),
    ensures
        moves@ == slider_moves(*board, white_turn, piece, directions@),
{
    let mut moves: Vec<Move> = Vec::new();
    let own = if white_turn {
        board.white_pieces
    } else {
        board.black_pieces
    };
    let mut sliders = board.pieces[piece.index()] & own;
    let all_pieces = board.black_pieces | board.white_pieces;
    let ghost mut done: int = 0;
    let ghost origin = is_origin(*board, white_turn, piece);
    let ghost moves_from = slider_moves_from(*board, white_turn, piece, directions@);
    proof {
        lemma_has_bit_algebra();
        assert(all_pieces == board.occupied()) by {
            let white = board.white_pieces;
            let black = board.black_pieces;
            assert(black | white == white | black) by (bit_vector);
        }
    }
    while sliders > 0
        invariant
            is_attack_table(*rays),
            own == board.own_mask(white_turn),
            all_pieces == board.occupied(),
            origin == is_origin(*board, white_turn, piece),
            moves_from == slider_moves_from(*board, white_turn, piece, directions@),
            0 <= done <= 64,
            forall|square: int| has_bit(sliders, square) <==> origin(square) && square >= done,
            moves@ == moves_of_each(ascending_where(origin, done), moves_from),
        decreases 64 - done,
    {
        let from = sliders.trailing_zeros();
        let ghost before = moves@;
        let ghost in_direction = slide_moves(*board, white_turn, piece, from as int);
        proof {
            lemma_lowest_square(sliders);
        }
        let mut i: usize = 0;
        while i < 4
            invariant
                is_attack_table(*rays),
                from < 64,
                i <= 4,
                own == board.own_mask(white_turn),
                all_pieces == board.occupied(),
                in_direction == slide_moves(*board, white_turn, piece, from as int),
                moves@ == before + directions@.take(i as int).map_values(in_direction).flatten(),
            decreases 4 - i,
        {
            let direction = directions[i];
            let targets = slide_targets(rays, from, direction, all_pieces, own);
            push_moves(&mut moves, from, targets, piece);
            proof {
                let taken = directions@.take(i as int);
                lemma_ascending_where_agree(
                    members(targets),
                    reached_by_slide(*board, white_turn, from as int, direction),
                    64,
                );
                assert(directions@.take(i + 1) =~= taken.push(direction));
                assert(taken.push(direction).map_values(in_direction) =~= taken.map_values(
                    in_direction,
                ).push(in_direction(direction)));
                taken.map_values(in_direction).lemma_flatten_push(in_direction(direction));
            }
            i += 1;
        }
        proof {
            lemma_has_bit_algebra();
            assert(directions@.take(4) =~= directions@);
            assert forall|square: int| done <= square < from implies !#[trigger] origin(
                square,
            ) by {
                assert(!has_bit(sliders, square));
            }
            lemma_ascending_where_skip(origin, done, from as int);
            lemma_moves_of_each_push(ascending_where(origin, from as int), moves_from, from as int);
            assert forall|square: int|
                has_bit(sliders & !(1u64 << from), square) <==> origin(square) && square >= from
                    + 1 by {
                lemma_has_bit_single(from as int, square);
            }
        }
        sliders &= !(1u64 << from);
        proof {
            done = from + 1;
        }
    }
    proof {
        lemma_empty_bitboard(sliders);
        assert forall|square: int| done <= square < 64 implies !#[trigger] origin(square) by {
            assert(!has_bit(sliders, square));
        }
        lemma_ascending_where_skip(origin, done, 64);
    }
    moves
}

/// The pseudo-legal moves of the rooks of the side to move: for each rook
/// from the lowest square to the highest, the squares that it reaches to
/// the north, the east, the south and the west, in that order of
/// directions and from the lowest square to the highest within one
/// direction.
pub fn rook_moves(board: &Board, white_turn: bool) -> (moves: Vec<Move>)
    ensures
        moves@ == slider_moves(*board, white_turn, Pieces::Rooks, rook_directions()),
{
    let directions = [Direction::North, Direction::East, Direction::South, Direction::West];
    let rays = create_attack_rays();
    sliding_moves(&rays, board, white_turn, Pieces::Rooks, directions)
}

/// The pseudo-legal moves of the bishops of the side to move: for each
/// bishop from the lowest square to the highest, the squares that it
/// reaches to the north-east, the south-east, the south-west and the
/// north-west, in that order of directions and from the lowest square to
/// the highest within one direction.
pub fn bishop_moves(board: &Board, white_turn: bool) -> (moves: Vec<Move>)
    ensures
        moves@ == slider_moves(*board, white_turn, Pieces::Bishops, bishop_directions()),
{
    let directions = [
        Direction::NorthEast,
        Direction::SouthEast,
        Direction::SouthWest,
        Direction::NorthWest,
    ];
    let rays = create_attack_rays();
    sliding_moves(&rays, board, white_turn, Pieces::Bishops, directions)
}

/// The moves listed for one slider in one direction lead to exactly the
/// squares that the slider reaches there.
pub proof fn lemma_slide_moves_exact(
    board: Board,
    white_turn: bool,
    piece: Pieces,
    from: int,
    direction: Direction,
    to: int,
)
    requires
        0 <= from < 64,
        0 <= to < 64,
    ensures
        slide_moves(board, white_turn, piece, from)(direction).contains(
            Move { from: from as u32, to: to as u32, piece },
        ) <==> slide_reaches(
            board.occupied(),
            board.own_mask(white_turn),
            from,
            direction,
            to,
        ),
{
    let reached = reached_by_slide(board, white_turn, from, direction);
    let squares = ascending_where(reached, 64);
    let listed = slide_moves(board, white_turn, piece, from)(direction);
    lemma_ascending_where_contents(reached, 64);
    if reached(to) {
        assert(squares.contains(to));
        let i = choose|i: int| 0 <= i < squares.len() && squares[i] == to;
        assert(listed[i] == Move { from: from as u32, to: to as u32, piece });
    }
}

/// Every sliding move that is listed starts on a slider of the side to
/// move and leads along one of the directions: the destination lies on the
/// ray of that direction, nothing stands between the slider and it, and it
/// holds no piece of the moving side, so it is empty or held by the other
/// side.
pub proof fn lemma_slider_moves_sound(
    board: Board,
    white_turn: bool,
    piece: Pieces,
    directions: Seq<Direction>,
    i: int,
) -> (d: int)
    requires
        0 <= i < slider_moves(board, white_turn, piece, directions).len(),
    ensures
        0 <= d < directions.len(),
        ({
            let listed = slider_moves(board, white_turn, piece, directions)[i];
            &&& listed.piece == piece
            &&& board.holds(piece, listed.from as int)
            &&& board.is_own(white_turn, listed.from as int)
            &&& on_ray(listed.from as int, directions[d], listed.to as int)
            &&& path_is_clear(
                board.occupied(),
                listed.from as int,
                directions[d],
                listed.to as int,
            )
            &&& !board.is_own(white_turn, listed.to as int)
        }),
{
    let origin = is_origin(board, white_turn, piece);
    let origins = ascending_where(origin, 64);
    let moves_from = slider_moves_from(board, white_turn, piece, directions);
    lemma_ascending_where_contents(origin, 64);
    let (o, j) = lemma_flatten_member(origins.map_values(moves_from), i);
    let from = origins[o];
    let in_direction = slide_moves(board, white_turn, piece, from);
    let (d, k) = lemma_flatten_member(directions.map_values(in_direction), j);
    let reached = reached_by_slide(board, white_turn, from, directions[d]);
    lemma_ascending_where_contents(reached, 64);
    d
}

/// Every square that a slider of the side to move reaches along one of the
/// directions gives a listed move.
pub proof fn lemma_slider_moves_complete(
    board: Board,
    white_turn: bool,
    piece: Pieces,
    directions: Seq<Direction>,
    from: int,
    d: int,
    to: int,
)
    requires
        board.holds(piece, from),
        board.is_own(white_turn, from),
        0 <= d < directions.len(),
        slide_reaches(board.occupied(), board.own_mask(white_turn), from, directions[d], to),
    ensures
        slider_moves(board, white_turn, piece, directions).contains(
            Move { from: from as u32, to: to as u32, piece },
        ),
{
    let origin = is_origin(board, white_turn, piece);
    let origins = ascending_where(origin, 64);
    let moves_from = slider_moves_from(board, white_turn, piece, directions);
    let in_direction = slide_moves(board, white_turn, piece, from);
    lemma_ascending_where_contents(origin, 64);
    assert(origins.contains(from));
    let o = choose|o: int| 0 <= o < origins.len() && origins[o] == from;
    lemma_slide_moves_exact(board, white_turn, piece, from, directions[d], to);
    let listed = in_direction(directions[d]);
    let wanted = Move { from: from as u32, to: to as u32, piece };
    let k = choose|k: int| 0 <= k < listed.len() && listed[k] == wanted;
    lemma_flatten_holds(directions.map_values(in_direction), d, k);
    let of_origin = moves_from(from);
    let j = choose|j: int| 0 <= j < of_origin.len() && of_origin[j] == wanted;
    lemma_flatten_holds(origins.map_values(moves_from), o, j);
}

/// Where a ray is blocked, the moves listed for that direction lead to
/// exactly the squares strictly between the slider and the nearest
/// blocker, and to the blocker's square as well if the blocker belongs to
/// the other side.
pub proof fn lemma_blocked_ray(
    board: Board,
    white_turn: bool,
    piece: Pieces,
    from: int,
    direction: Direction,
    blocker: int,
    to: int,
)
    requires
        0 <= to < 64,
        on_ray(from, direction, blocker),
        board.is_occupied(blocker),
        path_is_clear(board.occupied(), from, direction, blocker),
    ensures
        slide_moves(board, white_turn, piece, from)(direction).contains(
            Move { from: from as u32, to: to as u32, piece },
        ) <==> (on_ray(from, direction, to) && on_ray(to, direction, blocker)) || (to == blocker
            && !board.is_own(white_turn, blocker)),
{
    let occupied = board.occupied();
    lemma_has_bit_algebra();
    lemma_slide_moves_exact(board, white_turn, piece, from, direction, to);
    if on_ray(from, direction, to) {
        lemma_first_blocker(occupied, from, direction, blocker, to);
        lemma_ray_split(from, direction, blocker, to);
        if on_ray(to, direction, blocker) {
            lemma_ray_order(to, direction, blocker);
            if on_ray(blocker, direction, to) {
                lemma_ray_order(blocker, direction, to);
            }
            assert(!has_bit(occupied, to));
        }
    }
}

/// The eight jumps of a knight as changes of column and row, in the order
/// in which the moves of one knight are listed.
pub open spec fn knight_jump(jump: int) -> (int, int) {
    if jump == 0 {
        (1, 2)
    } else if jump == 1 {
        (2, 1)
    } else if jump == 2 {
        (2, -1)
    } else if jump == 3 {
        (1, -2)
    } else if jump == 4 {
        (-1, 2)
    } else if jump == 5 {
        (-2, 1)
    } else if jump == 6 {
        (-2, -1)
    } else {
        (-1, -2)
    }
}

/// Whether jump number `jump` of a knight on `from` ends on the board.
pub open spec fn jump_stays_on_board(from: int, jump: int) -> bool {
    &&& 0 <= file_of(from) + knight_jump(jump).0 < 8
    &&& 0 <= row_of(from) + knight_jump(jump).1 < 8
}

/// The square on which jump number `jump` of a knight on `from` ends.
pub open spec fn knight_target(from: int, jump: int) -> int {
    from + 8 * knight_jump(jump).1 + knight_jump(jump).0
}

/// The jumps that a knight on `from` can make: those that end on the board
/// and not on a piece of its own side.
pub open spec fn knight_lands(own: Bitboard, from: int) -> spec_fn(int) -> bool {
    |jump: int| jump_stays_on_board(from, jump) && !has_bit(own, knight_target(from, jump))
}

/// The move that jump number `jump` makes from `from`.
pub open spec fn knight_move(from: int) -> spec_fn(int) -> Move {
    |jump: int|
        Move { from: from as u32, to: knight_target(from, jump) as u32, piece: Pieces::Knights }
}

/// The moves of a knight on each origin: one for each jump that it can
/// make, in the order of the jumps.
pub open spec fn knight_moves_from(board: Board, white_turn: bool) -> spec_fn(int) -> Seq<Move> {
    |from: int|
        ascending_where(knight_lands(board.own_mask(white_turn), from), 8).map_values(
            knight_move(from),
        )
}

/// The moves of all knights of the side to move, the knights taken from
/// the lowest square to the highest.
pub open spec fn all_knight_moves(board: Board, white_turn: bool) -> Seq<Move> {
    moves_of_each(
        ascending_where(is_origin(board, white_turn, Pieces::Knights), 64),
        knight_moves_from(board, white_turn),
    )
}

/// The square on which jump number `jump` ends, as a bitboard of one
/// square, or the empty bitboard where the jump leaves the board.
///
/// A jump is a shift of the knight's square. A shift that leaves the board
/// over the left or right edge comes back in on the other side, one row
/// off: the file masks take out the columns where only such a jump can end.
fn knight_jump_target(from: u32, jump: usize) -> (target: Bitboard)
    requires
        from < 64,
        jump < 8,
    ensures
        forall|to: int|
            has_bit(target, to) <==> jump_stays_on_board(from as int, jump as int) && to
                == knight_target(from as int, jump as int),
{
    let position: Bitboard = 1u64 << from;
    proof {
        lemma_has_bit_algebra();
    }
    if jump == 0 {
        assert forall|to: int|
            has_bit((position << 17) & !FILE_A, to) <==> jump_stays_on_board(from as int, 0) && to
                == knight_target(from as int, 0) by {
            lemma_has_bit_shl(position, 17, to);
            lemma_has_bit_single(from as int, to - 17);
            if 0 <= to < 64 {
                lemma_has_bit_masks(to);
            }
        }
        (position << 17) & !FILE_A
    } else if jump == 1 {
        assert forall|to: int|
            has_bit((position << 10) & (!FILE_A & !FILE_B), to) <==> jump_stays_on_board(
                from as int,
                1,
            ) && to == knight_target(from as int, 1) by {
            lemma_has_bit_shl(position, 10, to);
            lemma_has_bit_single(from as int, to - 10);
            if 0 <= to < 64 {
                lemma_has_bit_masks(to);
            }
        }
        (position << 10) & (!FILE_A & !FILE_B)
    } else if jump == 2 {
        assert forall|to: int|
            has_bit((position >> 6) & (!FILE_A & !FILE_B), to) <==> jump_stays_on_board(
                from as int,
                2,
            ) && to == knight_target(from as int, 2) by {
            lemma_has_bit_shr(position, 6, to);
            lemma_has_bit_single(from as int, to + 6);
            if 0 <= to < 64 {
                lemma_has_bit_masks(to);
            }
        }
        (position >> 6) & (!FILE_A & !FILE_B)
    } else if jump == 3 {
        assert forall|to: int|
            has_bit((position >> 15) & !FILE_A, to) <==> jump_stays_on_board(from as int, 3) && to
                == knight_target(from as int, 3) by {
            lemma_has_bit_shr(position, 15, to);
            lemma_has_bit_single(from as int, to + 15);
            if 0 <= to < 64 {
                lemma_has_bit_masks(to);
            }
        }
        (position >> 15) & !FILE_A
    } else if jump == 4 {
        assert forall|to: int|
            has_bit((position << 15) & !FILE_H, to) <==> jump_stays_on_board(from as int, 4) && to
                == knight_target(from as int, 4) by {
            lemma_has_bit_shl(position, 15, to);
            lemma_has_bit_single(from as int, to - 15);
            if 0 <= to < 64 {
                lemma_has_bit_masks(to);
            }
        }
        (position << 15) & !FILE_H
    } else if jump == 5 {
        assert forall|to: int|
            has_bit((position << 6) & (!FILE_G & !FILE_H), to) <==> jump_stays_on_board(
                from as int,
                5,
            ) && to == knight_target(from as int, 5) by {
            lemma_has_bit_shl(position, 6, to);
            lemma_has_bit_single(from as int, to - 6);
            if 0 <= to < 64 {
                lemma_has_bit_masks(to);
            }
        }
        (position << 6) & (!FILE_G & !FILE_H)
    } else if jump == 6 {
        assert forall|to: int|
            has_bit((position >> 10) & (!FILE_G & !FILE_H), to) <==> jump_stays_on_board(
                from as int,
                6,
            ) && to == knight_target(from as int, 6) by {
            lemma_has_bit_shr(position, 10, to);
            lemma_has_bit_single(from as int, to + 10);
            if 0 <= to < 64 {
                lemma_has_bit_masks(to);
            }
        }
        (position >> 10) & (!FILE_G & !FILE_H)
    } else {
        assert forall|to: int|
            has_bit((position >> 17) & !FILE_H, to) <==> jump_stays_on_board(from as int, 7) && to
                == knight_target(from as int, 7) by {
            lemma_has_bit_shr(position, 17, to);
            lemma_has_bit_single(from as int, to + 17);
            if 0 <= to < 64 {
                lemma_has_bit_masks(to);
            }
        }
        (position >> 17) & !FILE_H
    }
}

/// The pseudo-legal moves of the knights of the side to move: for each
/// knight from the lowest square to the highest, one move for each of its
/// eight jumps that ends on the board and not on a piece of its own side.
pub fn knight_moves(board: &Board, white_turn: bool) -> (moves: Vec<Move>)
    ensures
        moves@ == all_knight_moves(*board, white_turn),
{
    let mut moves: Vec<Move> = Vec::new();
    let own_pieces = if white_turn {
        board.white_pieces
    } else {
        board.black_pieces
    };
    let mut knights = board.pieces[Pieces::Knights.index()] & own_pieces;
    let ghost mut done: int = 0;
    let ghost origin = is_origin(*board, white_turn, Pieces::Knights);
    let ghost moves_from = knight_moves_from(*board, white_turn);
    proof {
        lemma_has_bit_algebra();
    }
    while knights > 0
        invariant
            own_pieces == board.own_mask(white_turn),
            origin == is_origin(*board, white_turn, Pieces::Knights),
            moves_from == knight_moves_from(*board, white_turn),
            0 <= done <= 64,
            forall|square: int| has_bit(knights, square) <==> origin(square) && square >= done,
            moves@ == moves_of_each(ascending_where(origin, done), moves_from),
        decreases 64 - done,
    {
        let from = knights.trailing_zeros();
        let ghost before = moves@;
        let ghost lands = knight_lands(own_pieces, from as int);
        proof {
            lemma_lowest_square(knights);
        }
        let mut jump: usize = 0;
        while jump < 8
            invariant
                from < 64,
                jump <= 8,
                lands == knight_lands(own_pieces, from as int),
                moves@ == before + ascending_where(lands, jump as int).map_values(
                    knight_move(from as int),
                ),
            decreases 8 - jump,
        {
            let landing = knight_jump_target(from, jump) & !own_pieces;
            proof {
                lemma_has_bit_algebra();
                lemma_empty_bitboard(landing);
            }
            if landing > 0 {
                let to = landing.trailing_zeros();
                proof {
                    lemma_lowest_square(landing);
                }
                moves.push(Move { from, to, piece: Pieces::Knights });
            } else {
                proof {
                    if lands(jump as int) {
                        assert(has_bit(landing, knight_target(from as int, jump as int)));
                    }
                }
            }
            jump += 1;
        }
        proof {
            lemma_has_bit_algebra();
            assert forall|square: int| done <= square < from implies !#[trigger] origin(
                square,
            ) by {
                assert(!has_bit(knights, square));
            }
            lemma_ascending_where_skip(origin, done, from as int);
            lemma_moves_of_each_push(ascending_where(origin, from as int), moves_from, from as int);
            assert forall|square: int|
                has_bit(knights & !(1u64 << from), square) <==> origin(square) && square >= from
                    + 1 by {
                lemma_has_bit_single(from as int, square);
            }
        }
        knights &= !(1u64 << from);
        proof {
            done = from + 1;
        }
    }
    proof {
        lemma_empty_bitboard(knights);
        assert forall|square: int| done <= square < 64 implies !#[trigger] origin(square) by {
            assert(!has_bit(knights, square));
        }
        lemma_ascending_where_skip(origin, done, 64);
    }
    moves
}

/// Every knight move that is listed starts on a knight of the side to
/// move, ends on a square of the board that holds no piece of that side,
/// and changes the column by one and the row by two, or the column by two
/// and the row by one: no jump comes back in over the opposite edge.
pub proof fn lemma_knight_moves_stay_close(board: Board, white_turn: bool, i: int)
    requires
        0 <= i < all_knight_moves(board, white_turn).len(),
    ensures
        ({
            let listed = all_knight_moves(board, white_turn)[i];
            let files = file_of(listed.to as int) - file_of(listed.from as int);
            let rows = row_of(listed.to as int) - row_of(listed.from as int);
            &&& listed.piece == Pieces::Knights
            &&& board.holds(Pieces::Knights, listed.from as int)
            &&& board.is_own(white_turn, listed.from as int)
            &&& 0 <= listed.to < 64
            &&& !board.is_own(white_turn, listed.to as int)
            &&& {
                ||| (files == 1 || files == -1) && (rows == 2 || rows == -2)
                ||| (files == 2 || files == -2) && (rows == 1 || rows == -1)
            }
        }),
{
    let origin = is_origin(board, white_turn, Pieces::Knights);
    let origins = ascending_where(origin, 64);
    let moves_from = knight_moves_from(board, white_turn);
    lemma_ascending_where_contents(origin, 64);
    let (o, j) = lemma_flatten_member(origins.map_values(moves_from), i);
    let from = origins[o];
    let lands = knight_lands(board.own_mask(white_turn), from);
    lemma_ascending_where_contents(lands, 8);
}

/// The change of square number made by a pawn's step: white pawns move
/// towards the eighth rank, to lower squares, black pawns to higher ones.
pub open spec fn pawn_step(white_turn: bool) -> int {
    if white_turn {
        -8
    } else {
        8
    }
}

/// The row on which a double push ends: the fourth rank for white, the
/// fifth for black.
pub open spec fn double_push_row(white_turn: bool) -> int {
    if white_turn {
        4
    } else {
        3
    }
}

/// The squares from which a pawn of the side to move can step forward: the
/// square in front of it is on the board and empty.
pub open spec fn can_push(board: Board, white_turn: bool) -> spec_fn(int) -> bool {
    |from: int|
        is_origin(board, white_turn, Pieces::Pawns)(from) && board.is_empty(
            from + pawn_step(white_turn),
        )
}

/// The squares from which a pawn of the side to move can make a double
/// push: it can step forward, the square behind that is empty too, and that
/// square lies on the row where double pushes end, so that the pawn has
/// started from its home rank.
pub open spec fn can_double_push(board: Board, white_turn: bool) -> spec_fn(int) -> bool {
    |from: int|
        {
            &&& can_push(board, white_turn)(from)
            &&& board.is_empty(from + 2 * pawn_step(white_turn))
            &&& row_of(from + 2 * pawn_step(white_turn)) == double_push_row(white_turn)
        }
}

/// The move of a pawn from `from` over `steps` squares.
pub open spec fn pawn_push(white_turn: bool, steps: int) -> spec_fn(int) -> Move {
    |from: int|
        Move {
            from: from as u32,
            to: (from + steps * pawn_step(white_turn)) as u32,
            piece: Pieces::Pawns,
        }
}

/// The single pushes of the side to move, the pawns taken from the lowest
/// square to the highest.
pub open spec fn single_pushes(board: Board, white_turn: bool) -> Seq<Move> {
    ascending_where(can_push(board, white_turn), 64).map_values(pawn_push(white_turn, 1))
}

/// The double pushes of the side to move, the pawns taken from the lowest
/// square to the highest.
pub open spec fn double_pushes(board: Board, white_turn: bool) -> Seq<Move> {
    ascending_where(can_double_push(board, white_turn), 64).map_values(pawn_push(white_turn, 2))
}

/// The single pushes of the pawns of the side to move: one move for each
/// pawn, from the lowest square to the highest, whose square in front is on
/// the board and empty.
pub fn pawn_moves_single_push(board: &Board, white_turn: bool) -> (moves: Vec<Move>)
    ensures
        moves@ == single_pushes(*board, white_turn),
{
    let mut moves: Vec<Move> = Vec::new();
    let mut pawns = board.pieces[Pieces::Pawns.index()] & if white_turn {
        board.white_pieces
    } else {
        board.black_pieces
    };
    let empty_tiles = !(board.white_pieces | board.black_pieces);
    let ghost mut done: int = 0;
    let ghost origin = is_origin(*board, white_turn, Pieces::Pawns);
    let ghost pushes = can_push(*board, white_turn);
    let ghost push = pawn_push(white_turn, 1);
    proof {
        lemma_has_bit_algebra();
    }
    while pawns > 0
        invariant
            origin == is_origin(*board, white_turn, Pieces::Pawns),
            pushes == can_push(*board, white_turn),
            push == pawn_push(white_turn, 1),
            forall|square: int|
                has_bit(empty_tiles, square) <==> 0 <= square < 64 && !board.is_occupied(square),
            0 <= done <= 64,
            forall|square: int| has_bit(pawns, square) <==> origin(square) && square >= done,
            moves@ == ascending_where(pushes, done).map_values(push),
        decreases 64 - done,
    {
        let from: u32 = pawns.trailing_zeros();
        proof {
            lemma_lowest_square(pawns);
            lemma_has_bit_algebra();
        }
        let pawn_move = if white_turn {
            ((1u64 << from) >> 8) & empty_tiles
        } else {
            ((1u64 << from) << 8) & empty_tiles
        };
        proof {
            lemma_empty_bitboard(pawn_move);
            assert forall|to: int|
                has_bit(pawn_move, to) <==> pushes(from as int) && to == from + pawn_step(
                    white_turn,
                ) by {
                if white_turn {
                    lemma_has_bit_shr(1u64 << from, 8, to);
                    lemma_has_bit_single(from as int, to + 8);
                } else {
                    lemma_has_bit_shl(1u64 << from, 8, to);
                    lemma_has_bit_single(from as int, to - 8);
                }
            }
            assert forall|square: int| done <= square < from implies !#[trigger] pushes(
                square,
            ) by {
                assert(!has_bit(pawns, square));
            }
            lemma_ascending_where_skip(pushes, done, from as int);
        }
        if pawn_move > 0 {
            let to = pawn_move.trailing_zeros();
            proof {
                lemma_lowest_square(pawn_move);
            }
            moves.push(Move { from, to, piece: Pieces::Pawns });
        } else {
            proof {
                if pushes(from as int) {
                    assert(has_bit(pawn_move, from + pawn_step(white_turn)));
                }
            }
        }
        proof {
            assert forall|square: int|
                has_bit(pawns & !(1u64 << from), square) <==> origin(square) && square >= from
                    + 1 by {
                lemma_has_bit_single(from as int, square);
            }
        }
        pawns &= !(1u64 << from);
        proof {
            done = from + 1;
        }
    }
    proof {
        lemma_empty_bitboard(pawns);
        assert forall|square: int| done <= square < 64 implies !#[trigger] pushes(square) by {
            assert(!has_bit(pawns, square));
        }
        lemma_ascending_where_skip(pushes, done, 64);
    }
    moves
}

/// The double pushes of the pawns of the side to move: one move for each
/// pawn, from the lowest square to the highest, that can step forward and
/// whose second square is empty and lies on the row where double pushes
/// end.
pub fn pawn_moves_double_push(board: &Board, white_turn: bool) -> (moves: Vec<Move>)
    ensures
        moves@ == double_pushes(*board, white_turn),
{
    let moves_one_push: Vec<Move> = pawn_moves_single_push(board, white_turn);
    let mut moves: Vec<Move> = Vec::new();
    let empty_tiles = !(board.white_pieces | board.black_pieces);
    let ghost pushes = can_push(*board, white_turn);
    let ghost doubles = can_double_push(*board, white_turn);
    let ghost double = pawn_push(white_turn, 2);
    let ghost origins = ascending_where(pushes, 64);
    let ghost mut done: int = 0;
    proof {
        lemma_has_bit_algebra();
        lemma_ascending_where_contents(pushes, 64);
    }
    let mut i: usize = 0;
    while i < moves_one_push.len()
        invariant
            pushes == can_push(*board, white_turn),
            doubles == can_double_push(*board, white_turn),
            double == pawn_push(white_turn, 2),
            origins == ascending_where(pushes, 64),
            moves_one_push@ == origins.map_values(pawn_push(white_turn, 1)),
            forall|square: int|
                has_bit(empty_tiles, square) <==> 0 <= square < 64 && !board.is_occupied(square),
            forall|k: int|
                0 <= k < origins.len() ==> 0 <= #[trigger] origins[k] < 64 && pushes(origins[k]),
            i <= moves_one_push.len(),
            0 <= done <= 64,
            i > 0 ==> done == origins[i - 1] + 1,
            i == 0 ==> done == 0,
            moves@ == ascending_where(doubles, done).map_values(double),
        decreases moves_one_push.len() - i,
    {
        let one_push = moves_one_push[i];
        let ghost from = origins[i as int];
        proof {
            lemma_has_bit_algebra();
            lemma_ascending_where_contents(pushes, 64);
            assert forall|square: int| done <= square < from implies !#[trigger] doubles(
                square,
            ) by {
                lemma_ascending_where_gap(pushes, 64, i as int, square);
            }
            lemma_ascending_where_skip(doubles, done, from);
        }
        let pawn_move = if white_turn {
            ((1u64 << one_push.to) >> 8) & empty_tiles & RANK4
        } else {
            ((1u64 << one_push.to) << 8) & empty_tiles & RANK5
        };
        proof {
            lemma_empty_bitboard(pawn_move);
            assert forall|to: int|
                has_bit(pawn_move, to) <==> doubles(from) && to == from + 2 * pawn_step(
                    white_turn,
                ) by {
                if white_turn {
                    lemma_has_bit_shr(1u64 << one_push.to, 8, to);
                    lemma_has_bit_single(one_push.to as int, to + 8);
                } else {
                    lemma_has_bit_shl(1u64 << one_push.to, 8, to);
                    lemma_has_bit_single(one_push.to as int, to - 8);
                }
                if 0 <= to < 64 {
                    lemma_has_bit_masks(to);
                }
            }
        }
        if pawn_move > 0 {
            let from = one_push.from;
            let to = pawn_move.trailing_zeros();
            proof {
                lemma_lowest_square(pawn_move);
            }
            moves.push(Move { from, to, piece: Pieces::Pawns });
        } else {
            proof {
                if doubles(from) {
                    assert(has_bit(pawn_move, from + 2 * pawn_step(white_turn)));
                }
            }
        }
        i += 1;
        proof {
            done = from + 1;
        }
    }
    proof {
        assert forall|square: int| done <= square < 64 implies !#[trigger] doubles(square) by {
            lemma_ascending_where_gap(pushes, 64, i as int, square);
        }
        lemma_ascending_where_skip(doubles, done, 64);
    }
    moves
}

/// The home row of the pawns: the second rank for white, the seventh for
/// black.
pub open spec fn pawn_home_row(white_turn: bool) -> int {
    if white_turn {
        6
    } else {
        1
    }
}

/// Every double push that is listed is made by a pawn of the side to move
/// that stands on its home row, leads two squares ahead, and goes with a
/// listed single push of the same pawn.
pub proof fn lemma_double_push_needs_single_push(board: Board, white_turn: bool, i: int)
    requires
        0 <= i < double_pushes(board, white_turn).len(),
    ensures
        ({
            let listed = double_pushes(board, white_turn)[i];
            &&& listed.piece == Pieces::Pawns
            &&& board.holds(Pieces::Pawns, listed.from as int)
            &&& board.is_own(white_turn, listed.from as int)
            &&& row_of(listed.from as int) == pawn_home_row(white_turn)
            &&& listed.to == listed.from + 2 * pawn_step(white_turn)
            &&& board.is_empty(listed.from + pawn_step(white_turn))
            &&& board.is_empty(listed.to as int)
            &&& single_pushes(board, white_turn).contains(
                Move {
                    from: listed.from,
                    to: (listed.from + pawn_step(white_turn)) as u32,
                    piece: Pieces::Pawns,
                },
            )
        }),
{
    let doubles = can_double_push(board, white_turn);
    let pushes = can_push(board, white_turn);
    lemma_ascending_where_contents(doubles, 64);
    lemma_ascending_where_contents(pushes, 64);
    let from = ascending_where(doubles, 64)[i];
    assert(ascending_where(pushes, 64).contains(from));
    let k = choose|k: int|
        0 <= k < ascending_where(pushes, 64).len() && ascending_where(pushes, 64)[k] == from;
    assert(single_pushes(board, white_turn)[k] == pawn_push(white_turn, 1)(from));
}

} // verus!
