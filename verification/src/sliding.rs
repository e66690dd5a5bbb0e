use crate::attack_rays::{
    is_attack_table, lemma_ray_chain, lemma_ray_order, lemma_ray_split, on_ray,
};
use crate::bitboard::{
    has_bit, lemma_empty_bitboard, lemma_has_bit_algebra, lemma_highest_square,
    lemma_lowest_square, Bitboard,
};
use crate::direction::Direction;
use vstd::prelude::*;

verus! {

/// Whether no occupied square lies strictly between `from` and `to` on the
/// ray that leads from `from` in `direction`.
pub open spec fn path_is_clear(
    occupied: Bitboard,
    from: int,
    direction: Direction,
    to: int,
) -> bool {
    forall|between: int|
        on_ray(from, direction, between) && on_ray(between, direction, to) ==> !#[trigger] has_bit(
            occupied,
            between,
        )
}

/// Whether a slider on `from` reaches `to` by sliding in `direction`: `to`
/// lies on that ray, nothing stands between the two squares, and `to` holds
/// no piece of the slider's own side. A square that holds a piece of the
/// other side is reached; the squares behind it are not.
pub open spec fn slide_reaches(
    occupied: Bitboard,
    own: Bitboard,
    from: int,
    direction: Direction,
    to: int,
) -> bool {
    &&& on_ray(from, direction, to)
    &&& path_is_clear(occupied, from, direction, to)
    &&& !has_bit(own, to)
}

/// The first occupied square of a ray cuts the ray in two: the squares up
/// to and including it have a clear path, the squares behind it do not.
pub proof fn lemma_first_blocker(
    occupied: Bitboard,
    from: int,
    direction: Direction,
    nearest: int,
    to: int,
)
    requires
        on_ray(from, direction, nearest),
        has_bit(occupied, nearest),
        path_is_clear(occupied, from, direction, nearest),
        on_ray(from, direction, to),
    ensures
        path_is_clear(occupied, from, direction, to) <==> !on_ray(nearest, direction, to),
{
    if !on_ray(nearest, direction, to) {
        lemma_ray_split(from, direction, nearest, to);
        assert forall|between: int|
            on_ray(from, direction, between) && on_ray(
                between,
                direction,
                to,
            ) implies !#[trigger] has_bit(occupied, between) by {
            if to != nearest {
                lemma_ray_chain(between, direction, to, nearest);
            }
        }
    }
}

/// The squares that a slider on `from` reaches in one direction.
///
/// The ray is cut at its first occupied square: that is the lowest
/// occupied square of the ray where the square numbers rise along the
/// direction, and the highest where they fall. The part of the ray behind
/// that square is the ray that starts on it, so the two rays differ in
/// exactly the squares up to and including it.
pub fn slide_targets(
    rays: &[[Bitboard; 8]; 64],
    from: u32,
    direction: Direction,
    occupied: Bitboard,
    own: Bitboard,
) -> (targets: Bitboard)
    requires
        is_attack_table(*rays),
        from < 64,
    ensures
        forall|to: int|
            has_bit(targets, to) <==> slide_reaches(occupied, own, from as int, direction, to),
{
    let attack_ray = rays[from as usize][direction];
    let blockers = attack_ray & occupied;
    proof {
        lemma_has_bit_algebra();
    }
    let reachable = if blockers > 0 {
        let nearest = match direction {
            Direction::East | Direction::SouthEast | Direction::South | Direction::SouthWest => {
                blockers.trailing_zeros()
            },
            Direction::North | Direction::NorthEast | Direction::West | Direction::NorthWest => {
                63 - blockers.leading_zeros()
            },
        };
        proof {
            lemma_lowest_square(blockers);
            lemma_highest_square(blockers);
            assert forall|between: int|
                on_ray(from as int, direction, between) && on_ray(
                    between,
                    direction,
                    nearest as int,
                ) implies !#[trigger] has_bit(occupied, between) by {
                lemma_ray_order(between, direction, nearest as int);
                assert(!has_bit(blockers, between));
            }
            assert forall|to: int|
                has_bit(attack_ray ^ rays[nearest as int][direction.slot()], to) <==> on_ray(
                    from as int,
                    direction,
                    to,
                ) && path_is_clear(occupied, from as int, direction, to) by {
                if on_ray(nearest as int, direction, to) {
                    lemma_ray_chain(from as int, direction, nearest as int, to);
                }
                if on_ray(from as int, direction, to) {
                    lemma_first_blocker(occupied, from as int, direction, nearest as int, to);
                }
            }
        }
        attack_ray ^ rays[nearest as usize][direction]
    } else {
        proof {
            lemma_empty_bitboard(blockers);
            assert forall|to: int|
                has_bit(attack_ray, to) <==> on_ray(from as int, direction, to) && path_is_clear(
                    occupied,
                    from as int,
                    direction,
                    to,
                ) by {
                if on_ray(from as int, direction, to) {
                    assert forall|between: int|
                        on_ray(from as int, direction, between) && on_ray(
                            between,
                            direction,
                            to,
                        ) implies !#[trigger] has_bit(occupied, between) by {
                        assert(!has_bit(blockers, between));
                    }
                }
            }
        }
        attack_ray
    };
    reachable & !own
}

} // verus!
