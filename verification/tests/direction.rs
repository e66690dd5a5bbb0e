use chess_movegen::bitboard::Bitboard;
use chess_movegen::direction::Direction;

#[test]
fn test_index_with_direction() {
    let attack_rays: Vec<Bitboard> = vec![1, 2, 3, 4, 5, 6, 7, 8];

    assert_eq!(attack_rays[Direction::North], 1);
    assert_eq!(attack_rays[Direction::NorthEast], 2);
    assert_eq!(attack_rays[Direction::East], 3);
    assert_eq!(attack_rays[Direction::SouthEast], 4);
    assert_eq!(attack_rays[Direction::South], 5);
    assert_eq!(attack_rays[Direction::SouthWest], 6);
    assert_eq!(attack_rays[Direction::West], 7);
    assert_eq!(attack_rays[Direction::NorthWest], 8);
}

#[test]
fn directions_are_numbered_in_their_order() {
    let all = [
        Direction::North,
        Direction::NorthEast,
        Direction::East,
        Direction::SouthEast,
        Direction::South,
        Direction::SouthWest,
        Direction::West,
        Direction::NorthWest,
    ];
    for (slot, direction) in all.into_iter().enumerate() {
        assert_eq!(direction.index(), slot);
        assert_eq!(direction as usize, slot);
    }
}
