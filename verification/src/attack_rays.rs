use crate::bitboard::{
    file_of, has_bit, lemma_bitboard_extensional, lemma_empty_bitboard, lemma_has_bit_algebra,
    lemma_has_bit_masks, lemma_has_bit_single, row_of, Bitboard, FILE_A, FILE_B, FILE_C, FILE_D,
    FILE_E, FILE_F, FILE_G, FILE_H, RANK1, RANK2, RANK3, RANK4, RANK5, RANK6, RANK7, RANK8,
};
use crate::direction::Direction;
use vstd::prelude::*;

verus! {

/// The file and row change of one step in each direction, in the order of
/// the directions.
pub const COMPASS_DIRECTIONS: [(i32, i32); 8] = [
    (0, -1),
    (1, -1),
    (1, 0),
    (1, 1),
    (0, 1),
    (-1, 1),
    (-1, 0),
    (-1, -1),
];

/// The distance covered along one axis by `k` steps, where each step
/// changes the coordinate by `step`, which is -1, 0 or 1.
pub open spec fn stride(step: int, k: int) -> int {
    if step > 0 {
        k
    } else if step < 0 {
        -k
    } else {
        0
    }
}

/// The number of king steps between two squares: the larger of their
/// distances in columns and in rows.
pub open spec fn steps_between(from: int, to: int) -> int {
    let files = file_of(to) - file_of(from);
    let rows = row_of(to) - row_of(from);
    let files = if files < 0 { -files } else { files };
    let rows = if rows < 0 { -rows } else { rows };
    if files > rows {
        files
    } else {
        rows
    }
}

/// Whether a slide from `from` in `direction` passes over `to` on an empty
/// board: `to` lies one or more whole steps away from `from`, each step
/// changing column and row as the direction says. Both squares are on the
/// board, so the slide never continues on the far side of an edge.
pub open spec fn on_ray(from: int, direction: Direction, to: int) -> bool {
    let k = steps_between(from, to);
    &&& 0 <= from < 64
    &&& 0 <= to < 64
    &&& k >= 1
    &&& file_of(to) - file_of(from) == stride(direction.file_step(), k)
    &&& row_of(to) - row_of(from) == stride(direction.row_step(), k)
}

/// Whether `rays` is the attack-ray table: row `from`, column `direction`
/// holds exactly the squares that a slide from `from` in `direction` passes
/// over on an empty board.
pub open spec fn is_attack_table(rays: [[Bitboard; 8]; 64]) -> bool {
    forall|from: int, direction: Direction, to: int|
        0 <= from < 64 ==> (#[trigger] has_bit(rays[from][direction.slot()], to) <==> on_ray(
            from,
            direction,
            to,
        ))
}

/// Whether the first `filled` entries of `row` hold the rays that start at
/// `from`.
pub open spec fn is_ray_row(row: [Bitboard; 8], from: int, filled: int) -> bool {
    forall|direction: Direction, to: int|
        direction.slot() < filled ==> (#[trigger] has_bit(row[direction.slot()], to) <==> on_ray(
            from,
            direction,
            to,
        ))
}

/// Along a ray the square numbers run one way: upwards for east, south
/// and the two southern diagonals, downwards for the other four.
pub proof fn lemma_ray_order(from: int, direction: Direction, to: int)
    requires
        on_ray(from, direction, to),
    ensures
        direction.ascends() ==> from < to,
        !direction.ascends() ==> to < from,
{
}

/// A ray continues: what lies on the ray of a square of the ray lies on
/// the ray itself, further out.
pub proof fn lemma_ray_chain(from: int, direction: Direction, middle: int, to: int)
    requires
        on_ray(from, direction, middle),
        on_ray(middle, direction, to),
    ensures
        on_ray(from, direction, to),
        steps_between(from, to) == steps_between(from, middle) + steps_between(middle, to),
{
}

/// Of two different squares of one ray, one lies on the ray of the other.
pub proof fn lemma_ray_split(from: int, direction: Direction, first: int, second: int)
    requires
        on_ray(from, direction, first),
        on_ray(from, direction, second),
    ensures
        first == second || on_ray(first, direction, second) || on_ray(second, direction, first),
{
}

/// A ray never holds its own origin and never leaves the board over an
/// edge to come back on the other side: each of its squares lies a whole
/// number of steps, between one and seven, from the origin, and column and
/// row change by that many steps of the direction. Where the first step
/// already leaves the board, the ray is empty.
pub proof fn lemma_ray_stays_on_board(rays: [[Bitboard; 8]; 64], from: int, direction: Direction)
    requires
        is_attack_table(rays),
        0 <= from < 64,
    ensures
        !has_bit(rays[from][direction.slot()], from),
        forall|to: int| #[trigger]
            has_bit(rays[from][direction.slot()], to) ==> {
                let k = steps_between(from, to);
                &&& 0 <= to < 64
                &&& 1 <= k <= 7
                &&& file_of(to) == file_of(from) + k * direction.file_step()
                &&& row_of(to) == row_of(from) + k * direction.row_step()
            },
        !(0 <= file_of(from) + direction.file_step() < 8 && 0 <= row_of(from)
            + direction.row_step() < 8) ==> rays[from][direction.slot()] == 0,
{
    let ray = rays[from][direction.slot()];
    assert forall|to: int| #[trigger] has_bit(ray, to) implies {
        let k = steps_between(from, to);
        &&& 0 <= to < 64
        &&& 1 <= k <= 7
        &&& file_of(to) == file_of(from) + k * direction.file_step()
        &&& row_of(to) == row_of(from) + k * direction.row_step()
    } by {
        let k = steps_between(from, to);
        assert(stride(direction.file_step(), k) == k * direction.file_step()) by (nonlinear_arith)
            requires
                -1 <= direction.file_step() <= 1,
        ;
        assert(stride(direction.row_step(), k) == k * direction.row_step()) by (nonlinear_arith)
            requires
                -1 <= direction.row_step() <= 1,
        ;
    }
    if !(0 <= file_of(from) + direction.file_step() < 8 && 0 <= row_of(from)
        + direction.row_step() < 8) {
        lemma_empty_bitboard(ray);
    }
}

/// There is one attack-ray table: two tables that hold the rays hold the
/// same bitboards.
pub proof fn lemma_attack_table_unique(
    first: [[Bitboard; 8]; 64],
    second: [[Bitboard; 8]; 64],
    from: int,
    direction: Direction,
)
    requires
        is_attack_table(first),
        is_attack_table(second),
        0 <= from < 64,
    ensures
        first[from][direction.slot()] == second[from][direction.slot()],
{
    let one = first[from][direction.slot()];
    let other = second[from][direction.slot()];
    lemma_bitboard_extensional(one, other);
}

/// Builds the attack-ray table: for every square and direction, the squares
/// from the origin to the edge of the board, the origin left out.
pub fn create_attack_rays() -> (attack_rays: [[Bitboard; 8]; 64])
    ensures
        is_attack_table(attack_rays),
{
    let mut attack_rays: [[Bitboard; 8]; 64] = [[0; 8]; 64];
    let mut square: usize = 0;
    while square < 64
        invariant
            square <= 64,
            forall|from: int|
                0 <= from < square ==> is_ray_row(#[trigger] attack_rays[from], from, 8),
        decreases 64 - square,
    {
        let mut rays: [Bitboard; 8] = [0; 8];
        let mut dir: usize = 0;
        while dir < 8
            invariant
                square < 64,
                dir <= 8,
                is_ray_row(rays, square as int, dir as int),
            decreases 8 - dir,
        {
            let (dx, dy) = COMPASS_DIRECTIONS[dir];
            let ghost heading = Direction::at(dir as int);
            let mut x: i32 = (square % 8) as i32;
            let mut y: i32 = (square / 8) as i32;
            let mut ray: Bitboard = 0;
            let ghost mut k: int = 0;
            proof {
                lemma_has_bit_algebra();
            }
            while x >= 0 && x < 8 && y >= 0 && y < 8
                invariant
                    square < 64,
                    dir < 8,
                    heading == Direction::at(dir as int),
                    dx == heading.file_step(),
                    dy == heading.row_step(),
                    0 <= k <= 8,
                    x == file_of(square as int) + stride(dx as int, k),
                    y == row_of(square as int) + stride(dy as int, k),
                    forall|to: int|
                        has_bit(ray, to) <==> (to == square && k >= 1) || (on_ray(
                            square as int,
                            heading,
                            to,
                        ) && steps_between(square as int, to) < k),
                decreases 8 - k,
            {
                let target_square: u64 = (y * 8 + x) as u64;
                proof {
                    lemma_has_bit_algebra();
                    assert forall|to: int|
                        has_bit(ray | (1u64 << target_square), to) <==> (to == square && k + 1
                            >= 1) || (on_ray(square as int, heading, to) && steps_between(
                            square as int,
                            to,
                        ) < k + 1) by {
                        lemma_has_bit_single(target_square as int, to);
                    }
                }
                ray |= 1u64 << target_square;
                x += dx;
                y += dy;
                proof {
                    k = k + 1;
                }
            }
            proof {
                lemma_has_bit_algebra();
                assert forall|to: int|
                    has_bit(ray & !(1u64 << square), to) <==> on_ray(
                        square as int,
                        heading,
                        to,
                    ) by {
                    lemma_has_bit_single(square as int, to);
                }
            }
            ray &= !(1u64 << square);
            rays[dir] = ray;
            dir += 1;
        }
        attack_rays[square] = rays;
        square += 1;
    }
    attack_rays
}

/// Whether `to` lies on the ray from `from` in `direction` and is not the
/// last square of that ray. A piece on the last square of a ray hides
/// nothing, so only the squares before it matter to a slider on `from`.
pub open spec fn on_inner_ray(from: int, direction: Direction, to: int) -> bool {
    &&& on_ray(from, direction, to)
    &&& 0 <= file_of(to) + direction.file_step() < 8
    &&& 0 <= row_of(to) + direction.row_step() < 8
}

/// Whether the occupancy of `to` matters to a rook on `from`: `to` lies on
/// the rook's row or column, and not at the far end of it.
pub open spec fn guards_rook(from: int, to: int) -> bool {
    ||| on_inner_ray(from, Direction::North, to)
    ||| on_inner_ray(from, Direction::East, to)
    ||| on_inner_ray(from, Direction::South, to)
    ||| on_inner_ray(from, Direction::West, to)
}

/// The squares whose occupancy matters to a rook on `square`: its row and
/// its column without the square itself, and without the squares on the
/// rim of the board that end a line.
pub fn rook_attack_mask(square: u32) -> (mask: Bitboard)
    requires
        square < 64,
    ensures
        forall|to: int| has_bit(mask, to) <==> guards_rook(square as int, to),
{
    let file = square % 8;
    let rank = square / 8;
    let rank_mask = match rank {
        0 => RANK8,
        1 => RANK7,
        2 => RANK6,
        3 => RANK5,
        4 => RANK4,
        5 => RANK3,
        6 => RANK2,
        _ => RANK1,
    };
    let file_mask = match file {
        0 => FILE_A,
        1 => FILE_B,
        2 => FILE_C,
        3 => FILE_D,
        4 => FILE_E,
        5 => FILE_F,
        6 => FILE_G,
        _ => FILE_H,
    };
    let edges = ((RANK1 | RANK8) & !rank_mask) | ((FILE_A | FILE_H) & !file_mask);
    proof {
        lemma_has_bit_algebra();
        assert forall|to: int|
            has_bit((rank_mask ^ file_mask) & !edges, to) <==> guards_rook(square as int, to) by {
            if 0 <= to < 64 {
                lemma_has_bit_masks(to);
            }
        }
    }
    (rank_mask ^ file_mask) & !edges
}

} // verus!
