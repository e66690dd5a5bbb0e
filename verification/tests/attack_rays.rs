use chess_movegen::attack_rays::{create_attack_rays, rook_attack_mask, COMPASS_DIRECTIONS};
use chess_movegen::bitboard::Bitboard;
use chess_movegen::direction::Direction;

const EXPECTED_RAYS: [[Bitboard; 8]; 64] = [
    [0, 0, 254, 9241421688590303744, 72340172838076672, 0, 0, 0],
    [0, 0, 252, 36099303471055872, 144680345676153344, 256, 1, 0],
    [0, 0, 248, 141012904183808, 289360691352306688, 66048, 3, 0],
    [0, 0, 240, 550831656960, 578721382704613376, 16909312, 7, 0],
    [0, 0, 224, 2151686144, 1157442765409226752, 4328785920, 15, 0],
    [0, 0, 192, 8404992, 2314885530818453504, 1108169199616, 31, 0],
    [0, 0, 128, 32768, 4629771061636907008, 283691315109888, 63, 0],
    [0, 0, 0, 0, 9259542123273814016, 72624976668147712, 127, 0],
    [1, 2, 65024, 4620710844295151616, 72340172838076416, 0, 0, 0],
    [2, 4, 64512, 9241421688590303232, 144680345676152832, 65536, 256, 1],
    [4, 8, 63488, 36099303471054848, 289360691352305664, 16908288, 768, 2],
    [8, 16, 61440, 141012904181760, 578721382704611328, 4328783872, 1792, 4],
    [16, 32, 57344, 550831652864, 1157442765409222656, 1108169195520, 3840, 8],
    [32, 64, 49152, 2151677952, 2314885530818445312, 283691315101696, 7936, 16],
    [64, 128, 32768, 8388608, 4629771061636890624, 72624976668131328, 16128, 32],
    [128, 0, 0, 0, 9259542123273781248, 145249953336262656, 32512, 64],
    [257, 516, 16646144, 2310355422147510272, 72340172838010880, 0, 0, 0],
    [514, 1032, 16515072, 4620710844295020544, 144680345676021760, 16777216, 65536, 256],
    [1028, 2064, 16252928, 9241421688590041088, 289360691352043520, 4328521728, 196608, 513],
    [2056, 4128, 15728640, 36099303470530560, 578721382704087040, 1108168671232, 458752, 1026],
    [4112, 8256, 14680064, 141012903133184, 1157442765408174080, 283691314053120, 983040, 2052],
    [8224, 16512, 12582912, 550829555712, 2314885530816348160, 72624976666034176, 2031616, 4104],
    [16448, 32768, 8388608, 2147483648, 4629771061632696320, 145249953332068352, 4128768, 8208],
    [32896, 0, 0, 0, 9259542123265392640, 290499906664136704, 8323072, 16416],
    [65793, 132104, 4261412864, 1155177711056977920, 72340172821233664, 0, 0, 0],
    [131586, 264208, 4227858432, 2310355422113955840, 144680345642467328, 4294967296, 16777216, 65536],
    [263172, 528416, 4160749568, 4620710844227911680, 289360691284934656, 1108101562368, 50331648, 131328],
    [526344, 1056832, 4026531840, 9241421688455823360, 578721382569869312, 283691179835392, 117440512, 262657],
    [1052688, 2113664, 3758096384, 36099303202095104, 1157442765139738624, 72624976397598720, 251658240, 525314],
    [2105376, 4227072, 3221225472, 141012366262272, 2314885530279477248, 145249952795197440, 520093696, 1050628],
    [4210752, 8388608, 2147483648, 549755813888, 4629771060558954496, 290499905590394880, 1056964608, 2101256],
    [8421504, 0, 0, 0, 9259542121117908992, 580999811180789760, 2130706432, 4202512],
    [16843009, 33818640, 1090921693184, 577588851233521664, 72340168526266368, 0, 0, 0],
    [33686018, 67637280, 1082331758592, 1155177702467043328, 144680337052532736, 1099511627776, 4294967296, 16777216],
    [67372036, 135274560, 1065151889408, 2310355404934086656, 289360674105065472, 283673999966208, 12884901888, 33619968],
    [134744072, 270549120, 1030792151040, 4620710809868173312, 578721348210130944, 72624942037860352, 30064771072, 67240192],
    [269488144, 541097984, 962072674304, 9241421619736346624, 1157442696420261888, 145249884075720704, 64424509440, 134480385],
    [538976288, 1082130432, 824633720832, 36099165763141632, 2314885392840523776, 290499768151441408, 133143986176, 268960770],
    [1077952576, 2147483648, 549755813888, 140737488355328, 4629770785681047552, 580999536302882816, 270582939648, 537921540],
    [2155905152, 0, 0, 0, 9259541571362095104, 1161999072605765632, 545460846592, 1075843080],
    [4311810305, 8657571872, 279275953455104, 288793326105133056, 72339069014638592, 0, 0, 0],
    [8623620610, 17315143744, 277076930199552, 577586652210266112, 144678138029277184, 281474976710656, 1099511627776, 4294967296],
    [17247241220, 34630287488, 272678883688448, 1155173304420532224, 289356276058554368, 72620543991349248, 3298534883328, 8606711808],
    [34494482440, 69260574720, 263882790666240, 2310346608841064448, 578712552117108736, 145241087982698496, 7696581394432, 17213489152],
    [68988964880, 138521083904, 246290604621824, 4620693217682128896, 1157425104234217472, 290482175965396992, 16492674416640, 34426978560],
    [137977929760, 277025390592, 211106232532992, 9241386435364257792, 2314850208468434944, 580964351930793984, 34084860461056, 68853957121],
    [275955859520, 549755813888, 140737488355328, 36028797018963968, 4629700416936869888, 1161928703861587968, 69269232549888, 137707914242],
    [551911719040, 0, 0, 0, 9259400833873739776, 2323857407723175936, 139637976727552, 275415828484],
    [1103823438081, 2216338399296, 71494644084506624, 144115188075855872, 72057594037927936, 0, 0, 0],
    [2207646876162, 4432676798592, 70931694131085312, 288230376151711744, 144115188075855872, 72057594037927936, 281474976710656, 1099511627776],
    [4415293752324, 8865353596928, 69805794224242688, 576460752303423488, 288230376151711744, 144115188075855872, 844424930131968, 2203318222848],
    [8830587504648, 17730707128320, 67553994410557440, 1152921504606846976, 576460752303423488, 288230376151711744, 1970324836974592, 4406653222912],
    [17661175009296, 35461397479424, 63050394783186944, 2305843009213693952, 1152921504606846976, 576460752303423488, 4222124650659840, 8813306511360],
    [35322350018592, 70918499991552, 54043195528445952, 4611686018427387904, 2305843009213693952, 1152921504606846976, 8725724278030336, 17626613022976],
    [70644700037184, 140737488355328, 36028797018963968, 9223372036854775808, 4611686018427387904, 2305843009213693952, 17732923532771328, 35253226045953],
    [141289400074368, 0, 0, 0, 9223372036854775808, 4611686018427387904, 35747322042253312, 70506452091906],
    [282578800148737, 567382630219904, 18302628885633695744, 0, 0, 0, 0, 0],
    [565157600297474, 1134765260439552, 18158513697557839872, 0, 0, 0, 72057594037927936, 281474976710656],
    [1130315200594948, 2269530520813568, 17870283321406128128, 0, 0, 0, 216172782113783808, 564049465049088],
    [2260630401189896, 4539061024849920, 17293822569102704640, 0, 0, 0, 504403158265495552, 1128103225065472],
    [4521260802379792, 9078117754732544, 16140901064495857664, 0, 0, 0, 1080863910568919040, 2256206466908160],
    [9042521604759584, 18155135997837312, 13835058055282163712, 0, 0, 0, 2233785415175766016, 4512412933881856],
    [18085043209519168, 36028797018963968, 9223372036854775808, 0, 0, 0, 4539628424389459968, 9024825867763968],
    [36170086419038336, 0, 0, 0, 0, 0, 9151314442816847872, 18049651735527937],
];

const ALL_DIRECTIONS: [Direction; 8] = [
    Direction::North,
    Direction::NorthEast,
    Direction::East,
    Direction::SouthEast,
    Direction::South,
    Direction::SouthWest,
    Direction::West,
    Direction::NorthWest,
];

#[test]
fn attack_rays_match_the_known_table() {
    let rays = create_attack_rays();
    for square in 0..64 {
        assert_eq!(rays[square], EXPECTED_RAYS[square], "square {}", square);
    }
}

#[test]
fn rays_from_the_corner_a8() {
    let rays = create_attack_rays();
    assert_eq!(rays[0][Direction::North], 0);
    assert_eq!(rays[0][Direction::NorthEast], 0);
    assert_eq!(rays[0][Direction::East], 254);
    assert_eq!(rays[0][Direction::SouthEast], 9241421688590303744);
    assert_eq!(rays[0][Direction::South], 72340172838076672);
    assert_eq!(rays[0][Direction::SouthWest], 0);
    assert_eq!(rays[0][Direction::West], 0);
    assert_eq!(rays[0][Direction::NorthWest], 0);
}

#[test]
fn rays_from_a_central_square() {
    let rays = create_attack_rays();
    assert_eq!(
        rays[27],
        [
            526344,
            1056832,
            4026531840,
            9241421688455823360,
            578721382569869312,
            283691179835392,
            117440512,
            262657
        ]
    );
}

#[test]
fn no_ray_holds_its_origin() {
    let rays = create_attack_rays();
    for square in 0..64 {
        for direction in ALL_DIRECTIONS {
            assert_eq!(rays[square][direction] & (1u64 << square), 0);
        }
    }
}

#[test]
fn no_ray_wraps_over_an_edge() {
    let rays = create_attack_rays();
    for square in 0..64usize {
        for (slot, direction) in ALL_DIRECTIONS.into_iter().enumerate() {
            let (dx, dy) = COMPASS_DIRECTIONS[slot];
            let ray = rays[square][direction];
            for to in 0..64usize {
                if ray & (1u64 << to) != 0 {
                    let files = (to % 8) as i32 - (square % 8) as i32;
                    let rows = (to / 8) as i32 - (square / 8) as i32;
                    let steps = files.abs().max(rows.abs());
                    assert!(steps >= 1 && steps <= 7);
                    assert_eq!(files, steps * dx);
                    assert_eq!(rows, steps * dy);
                }
            }
        }
    }
}

#[test]
fn every_square_in_line_is_on_the_ray() {
    let rays = create_attack_rays();
    for square in 0..64usize {
        for (slot, direction) in ALL_DIRECTIONS.into_iter().enumerate() {
            let (dx, dy) = COMPASS_DIRECTIONS[slot];
            let mut x = (square % 8) as i32 + dx;
            let mut y = (square / 8) as i32 + dy;
            let mut expected: Bitboard = 0;
            while x >= 0 && x < 8 && y >= 0 && y < 8 {
                expected |= 1u64 << (y * 8 + x);
                x += dx;
                y += dy;
            }
            assert_eq!(rays[square][direction], expected);
        }
    }
}

#[test]
fn rays_towards_a_near_edge_are_empty() {
    let rays = create_attack_rays();
    for row in 0..8 {
        assert_eq!(rays[row * 8 + 7][Direction::East], 0);
        assert_eq!(rays[row * 8 + 7][Direction::NorthEast], 0);
        assert_eq!(rays[row * 8 + 7][Direction::SouthEast], 0);
        assert_eq!(rays[row * 8][Direction::West], 0);
        assert_eq!(rays[row * 8][Direction::NorthWest], 0);
        assert_eq!(rays[row * 8][Direction::SouthWest], 0);
    }
    for file in 0..8 {
        assert_eq!(rays[file][Direction::North], 0);
        assert_eq!(rays[56 + file][Direction::South], 0);
    }
}

#[test]
fn compass_directions_follow_the_order_of_the_directions() {
    assert_eq!(
        COMPASS_DIRECTIONS,
        [(0, -1), (1, -1), (1, 0), (1, 1), (0, 1), (-1, 1), (-1, 0), (-1, -1)]
    );
}

#[test]
fn a_row_of_rays_is_indexed_by_direction() {
    let row: [Bitboard; 8] = [10, 20, 30, 40, 50, 60, 70, 80];
    assert_eq!(row[Direction::North], 10);
    assert_eq!(row[Direction::SouthWest], 60);
    let slice: &[Bitboard] = &row;
    assert_eq!(slice[Direction::East], 30);
    assert_eq!(slice[Direction::NorthWest], 80);
}

fn mask(squares: &[u32]) -> Bitboard {
    squares.iter().fold(0, |mask, square| mask | (1u64 << square))
}

#[test]
fn rook_attack_mask_leaves_out_the_ends_of_the_lines() {
    assert_eq!(
        rook_attack_mask(56),
        mask(&[57, 58, 59, 60, 61, 62, 48, 40, 32, 24, 16, 8])
    );
    assert_eq!(rook_attack_mask(0), mask(&[1, 2, 3, 4, 5, 6, 8, 16, 24, 32, 40, 48]));
    assert_eq!(rook_attack_mask(35), mask(&[33, 34, 36, 37, 38, 11, 19, 27, 43, 51]));
    assert_eq!(rook_attack_mask(63), mask(&[57, 58, 59, 60, 61, 62, 55, 47, 39, 31, 23, 15]));
}

#[test]
fn rook_attack_mask_lies_within_the_rays_of_the_rook() {
    let rays = create_attack_rays();
    for square in 0..64u32 {
        let lines = rays[square as usize][Direction::North]
            | rays[square as usize][Direction::East]
            | rays[square as usize][Direction::South]
            | rays[square as usize][Direction::West];
        let mask = rook_attack_mask(square);
        assert_eq!(mask & !lines, 0);
        let row = square / 8;
        let file = square % 8;
        let in_row = if file == 0 || file == 7 { 6 } else { 5 };
        let in_column = if row == 0 || row == 7 { 6 } else { 5 };
        let expected = in_row + in_column;
        assert_eq!(mask.count_ones(), expected);
    }
}
