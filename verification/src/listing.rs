use crate::bitboard::{has_bit, Bitboard};
use crate::chess_move::Move;
use crate::piece::Pieces;
use vstd::prelude::*;

verus! {

/// The numbers from 0 up to `limit`, `limit` left out, that satisfy `wanted`, in
/// ascending order.
pub open spec fn ascending_where(wanted: spec_fn(int) -> bool, limit: int) -> Seq<int>
    decreases limit,
{
    if limit <= 0 {
        Seq::empty()
    } else if wanted(limit - 1) {
        ascending_where(wanted, limit - 1).push(limit - 1)
    } else {
        ascending_where(wanted, limit - 1)
    }
}

/// Membership in a bitboard, as a predicate on squares.
pub open spec fn members(b: Bitboard) -> spec_fn(int) -> bool {
    |square: int| has_bit(b, square)
}

/// One move of `piece` from `from` to each of `destinations`, in their order.
pub open spec fn moves_to(from: int, piece: Pieces, destinations: Seq<int>) -> Seq<Move> {
    destinations.map_values(|to: int| Move { from: from as u32, to: to as u32, piece })
}

/// The moves of each origin in turn, the origins taken in their order.
pub open spec fn moves_of_each(origins: Seq<int>, moves_from: spec_fn(int) -> Seq<Move>) -> Seq<
    Move,
> {
    origins.map_values(moves_from).flatten()
}

/// Two predicates that agree below `limit` select the same squares.
pub proof fn lemma_ascending_where_agree(
    first: spec_fn(int) -> bool,
    second: spec_fn(int) -> bool,
    limit: int,
)
    requires
        forall|square: int| 0 <= square < limit ==> #[trigger] first(square) == second(square),
    ensures
        ascending_where(first, limit) == ascending_where(second, limit),
    decreases limit,
{
    if limit > 0 {
        lemma_ascending_where_agree(first, second, limit - 1);
    }
}

/// Raising the limit over squares that are not wanted selects nothing new.
pub proof fn lemma_ascending_where_skip(wanted: spec_fn(int) -> bool, low: int, high: int)
    requires
        low <= high,
        forall|square: int| low <= square < high ==> !#[trigger] wanted(square),
    ensures
        ascending_where(wanted, high) == ascending_where(wanted, low),
    decreases high - low,
{
    if low < high {
        lemma_ascending_where_skip(wanted, low, high - 1);
    }
}

/// The selected squares are wanted, below the limit and strictly ascending,
/// and every wanted square below the limit is among them.
pub proof fn lemma_ascending_where_contents(wanted: spec_fn(int) -> bool, limit: int)
    ensures
        forall|i: int|
            0 <= i < ascending_where(wanted, limit).len() ==> {
                let square = #[trigger] ascending_where(wanted, limit)[i];
                0 <= square < limit && wanted(square)
            },
        forall|i: int, j: int|
            0 <= i < j < ascending_where(wanted, limit).len() ==> ascending_where(wanted, limit)[i]
                < ascending_where(wanted, limit)[j],
        forall|square: int|
            0 <= square < limit && wanted(square) ==> #[trigger] ascending_where(
                wanted,
                limit,
            ).contains(square),
    decreases limit,
{
    if limit > 0 {
        lemma_ascending_where_contents(wanted, limit - 1);
        let shorter = ascending_where(wanted, limit - 1);
        let whole = ascending_where(wanted, limit);
        assert forall|square: int|
            0 <= square < limit && wanted(square) implies #[trigger] whole.contains(square) by {
            if square == limit - 1 {
                assert(whole[whole.len() - 1] == square);
            } else {
                assert(shorter.contains(square));
                let i = choose|i: int| 0 <= i < shorter.len() && shorter[i] == square;
                assert(whole[i] == square);
            }
        }
    }
}

/// Between two neighbours of the selection, before its first and after
/// its last number, no number is wanted.
pub proof fn lemma_ascending_where_gap(
    wanted: spec_fn(int) -> bool,
    limit: int,
    position: int,
    number: int,
)
    requires
        0 <= position <= ascending_where(wanted, limit).len(),
        0 <= number < limit,
        position > 0 ==> ascending_where(wanted, limit)[position - 1] < number,
        position < ascending_where(wanted, limit).len() ==> number < ascending_where(
            wanted,
            limit,
        )[position],
    ensures
        !wanted(number),
{
    lemma_ascending_where_contents(wanted, limit);
    let selection = ascending_where(wanted, limit);
    if wanted(number) {
        assert(selection.contains(number));
    }
}

/// Adding an origin at the end adds its moves at the end.
pub proof fn lemma_moves_of_each_push(
    origins: Seq<int>,
    moves_from: spec_fn(int) -> Seq<Move>,
    next: int,
)
    ensures
        moves_of_each(origins.push(next), moves_from) == moves_of_each(origins, moves_from)
            + moves_from(next),
{
    assert(origins.push(next).map_values(moves_from) =~= origins.map_values(moves_from).push(
        moves_from(next),
    ));
    origins.map_values(moves_from).lemma_flatten_push(moves_from(next));
}

/// Every member of a flattened list is a member of one of the lists.
pub proof fn lemma_flatten_member<A>(lists: Seq<Seq<A>>, i: int) -> (place: (int, int))
    requires
        0 <= i < lists.flatten().len(),
    ensures
        0 <= place.0 < lists.len(),
        0 <= place.1 < lists[place.0].len(),
        lists[place.0][place.1] == lists.flatten()[i],
    decreases lists.len(),
{
    if lists.len() == 0 {
        (0, 0)
    } else {
        let earlier = lists.drop_last();
        assert(lists =~= earlier.push(lists.last()));
        earlier.lemma_flatten_push(lists.last());
        if i < earlier.flatten().len() {
            lemma_flatten_member(earlier, i)
        } else {
            (lists.len() - 1, i - earlier.flatten().len())
        }
    }
}

/// Every member of every list is a member of the flattened list.
pub proof fn lemma_flatten_holds<A>(lists: Seq<Seq<A>>, k: int, j: int)
    requires
        0 <= k < lists.len(),
        0 <= j < lists[k].len(),
    ensures
        lists.flatten().contains(lists[k][j]),
    decreases lists.len(),
{
    let earlier = lists.drop_last();
    assert(lists =~= earlier.push(lists.last()));
    earlier.lemma_flatten_push(lists.last());
    if k < lists.len() - 1 {
        lemma_flatten_holds(earlier, k, j);
        let found = choose|found: int|
            0 <= found < earlier.flatten().len() && earlier.flatten()[found] == lists[k][j];
        assert(lists.flatten()[found] == lists[k][j]);
    } else {
        assert(lists.flatten()[earlier.flatten().len() + j] == lists[k][j]);
    }
}

} // verus!
