use calendar_puzzle::calendar::{covered_cells, create_pieces_lookup, PUZZLE_BORDER};
use calendar_puzzle::piece::Piece;
use calendar_puzzle::search::{find_solutions, solve_puzzle};

const KNOWN: [u64; 8] = [
    0x000000000060E000,
    0x00000002020E0000,
    0x000000141C000000,
    0xF080000000000000,
    0x0040406020000000,
    0x0038380000000000,
    0x0C04060000000000,
    0x00008080C0800000,
];

fn puzzle_variants() -> [Vec<Piece>; 8] {
    create_pieces_lookup().map(|p| p.get_variants())
}

fn same_variants(shape: u64, width: u64, height: u64) -> [Vec<Piece>; 8] {
    [0; 8].map(|_| Piece::new(shape, width, height).get_variants())
}

fn search_from(index: usize) -> (Vec<[u64; 8]>, u128, [u64; 8]) {
    let lookup = puzzle_variants();
    let mut board = PUZZLE_BORDER;
    let mut current = [0u64; 8];
    for k in 0..index {
        board |= KNOWN[k];
        current[k] = KNOWN[k];
    }
    let mut all = Vec::new();
    let mut counter: u128 = 0;
    solve_puzzle(board, &lookup, index as u64, &mut current, &mut all, &mut counter);
    (all, counter, current)
}

fn assert_clear(board: u64, solution: &[u64; 8], from: usize) {
    for a in from..8 {
        assert_eq!(solution[a] & board, 0);
        for b in from..8 {
            if a != b {
                assert_eq!(solution[a] & solution[b], 0);
            }
        }
    }
}

#[test]
fn a_full_partial_solution_is_recorded_as_it_is() {
    let lookup = puzzle_variants();
    let mut current = KNOWN;
    let mut all = vec![[7u64; 8]];
    let mut counter: u128 = 5;
    solve_puzzle(u64::MAX, &lookup, 8, &mut current, &mut all, &mut counter);
    assert_eq!(all, vec![[7u64; 8], KNOWN]);
    assert_eq!(counter, 5);
    assert_eq!(current, KNOWN);
}

#[test]
fn last_slot_of_a_known_solution() {
    let (all, counter, current) = search_from(7);
    assert_eq!(all, vec![KNOWN]);
    assert_eq!(counter, 192);
    assert_eq!(&current[..7], &KNOWN[..7]);
    assert_eq!(current[7], 0);
}

#[test]
fn last_slots_of_a_known_solution() {
    let (all, counter, _) = search_from(6);
    assert_eq!(all, vec![KNOWN]);
    assert_eq!(counter, 292);
    let (all, counter, _) = search_from(5);
    assert_eq!(all, vec![KNOWN]);
    assert_eq!(counter, 552);
    let (all, counter, _) = search_from(4);
    assert_eq!(all, vec![KNOWN]);
    assert_eq!(counter, 16224);
}

#[test]
fn five_open_slots_on_the_calendar_board() {
    let (all, counter, current) = search_from(3);
    let expected: Vec<[u64; 8]> = vec![
        KNOWN,
        [
            0x000000000060E000,
            0x00000002020E0000,
            0x000000141C000000,
            0xC080808000000000,
            0x2020604000000000,
            0x1C1C000000000000,
            0x00000020E0800000,
            0x00001E0800000000,
        ],
        [
            0x000000000060E000,
            0x00000002020E0000,
            0x000000141C000000,
            0xC080808000000000,
            0x2060404000000000,
            0x1C1C000000000000,
            0x00000020E0800000,
            0x00003C0800000000,
        ],
        [
            0x000000000060E000,
            0x00000002020E0000,
            0x000000141C000000,
            0xC080808000000000,
            0x2060404000000000,
            0x1C1C000000000000,
            0x00000020E0800000,
            0x00001E0800000000,
        ],
    ];
    assert_eq!(all, expected);
    assert_eq!(counter, 245088);
    assert_eq!(&current[..3], &KNOWN[..3]);
    assert_eq!(&current[3..], &[0u64; 5]);
}

#[test]
fn recorded_solutions_do_not_overlap_and_leave_two_cells() {
    let (all, counter, _) = search_from(3);
    assert!(!all.is_empty());
    assert!(counter > all.len() as u128);
    for solution in all.iter() {
        assert_clear(PUZZLE_BORDER, solution, 0);
        let free = !(covered_cells(solution) | PUZZLE_BORDER);
        assert!(free.count_ones() >= 2);
        assert_eq!(free.count_ones(), 2);
    }
}

#[test]
fn solutions_are_appended_and_attempts_added() {
    let lookup = puzzle_variants();
    let mut board = PUZZLE_BORDER;
    let mut current = [0u64; 8];
    for k in 0..6 {
        board |= KNOWN[k];
        current[k] = KNOWN[k];
    }
    current[6] = 0xAAAA;
    current[7] = 0x5555;
    let before = current;
    let mut all = vec![[1u64; 8], [2u64; 8]];
    let mut counter: u128 = 1000;
    solve_puzzle(board, &lookup, 6, &mut current, &mut all, &mut counter);
    assert_eq!(all, vec![[1u64; 8], [2u64; 8], KNOWN]);
    assert_eq!(counter, 1292);
    assert_eq!(current, before);
    solve_puzzle(board, &lookup, 6, &mut current, &mut all, &mut counter);
    assert_eq!(all, vec![[1u64; 8], [2u64; 8], KNOWN, KNOWN]);
    assert_eq!(counter, 1584);
}

#[test]
fn counter_may_exceed_sixty_four_bits() {
    let lookup = puzzle_variants();
    let mut board = PUZZLE_BORDER;
    let mut current = [0u64; 8];
    for k in 0..7 {
        board |= KNOWN[k];
        current[k] = KNOWN[k];
    }
    let mut all = Vec::new();
    let mut counter: u128 = u64::MAX as u128;
    solve_puzzle(board, &lookup, 7, &mut current, &mut all, &mut counter);
    assert_eq!(counter, u64::MAX as u128 + 192);
}

#[test]
fn a_full_board_rejects_every_placement_of_the_first_slot() {
    let (all, counter) = find_solutions(u64::MAX, &create_pieces_lookup());
    assert!(all.is_empty());
    assert_eq!(counter, 240);
}

#[test]
fn four_corners_cannot_hold_eight_pieces() {
    let lookup = same_variants(0x1, 7, 7);
    let mut current = [0u64; 8];
    let mut all = Vec::new();
    let mut counter: u128 = 0;
    solve_puzzle(0, &lookup, 0, &mut current, &mut all, &mut counter);
    assert!(all.is_empty());
    assert_eq!(counter, 260);
    let pieces = [Piece::new(0x1, 7, 7); 8];
    assert_eq!(find_solutions(0, &pieces), (Vec::new(), 260));
}

#[test]
fn empty_pieces_never_overlap() {
    let pieces = [Piece::new(0, 7, 7); 8];
    let (all, counter) = find_solutions(PUZZLE_BORDER, &pieces);
    assert_eq!(all, vec![[0u64; 8]]);
    assert_eq!(counter, 8);
}

#[test]
fn a_single_placement_is_shifted_past_the_border() {
    let mut lookup = same_variants(0, 7, 7);
    lookup[7] = vec![Piece::new(0x1, 7, 7)];
    let mut current = [0u64; 8];
    let mut all = Vec::new();
    let mut counter: u128 = 0;
    solve_puzzle(0, &lookup, 7, &mut current, &mut all, &mut counter);
    assert_eq!(all, vec![[0, 0, 0, 0, 0, 0, 0, 0x200]]);
    assert_eq!(counter, 1);
}

#[test]
fn placements_run_row_by_row_and_variant_by_variant() {
    let mut lookup = same_variants(0, 7, 7);
    lookup[7] = vec![Piece::new(0x1, 6, 6), Piece::new(0x3, 7, 6)];
    let mut current = [0u64; 8];
    let mut all = Vec::new();
    let mut counter: u128 = 0;
    solve_puzzle(0x400, &lookup, 7, &mut current, &mut all, &mut counter);
    let masks: Vec<u64> = all.iter().map(|s| s[7]).collect();
    assert_eq!(masks, vec![0x200, 0x20000, 0x40000, 0x60000]);
    assert_eq!(counter, 6);
}

#[test]
fn pieces_as_large_as_the_grid_have_no_placement() {
    let lookup = same_variants(u64::MAX, 8, 8);
    let mut current = [0u64; 8];
    let mut all = Vec::new();
    let mut counter: u128 = 0;
    solve_puzzle(0, &lookup, 0, &mut current, &mut all, &mut counter);
    assert!(all.is_empty());
    assert_eq!(counter, 0);
}

#[test]
fn a_slot_without_variants_ends_the_search() {
    let mut lookup = same_variants(0, 7, 7);
    lookup[3] = Vec::new();
    let mut current = [0u64; 8];
    let mut all = Vec::new();
    let mut counter: u128 = 0;
    solve_puzzle(0, &lookup, 0, &mut current, &mut all, &mut counter);
    assert!(all.is_empty());
    assert_eq!(counter, 3);
}

#[test]
fn calendar_board_with_the_first_piece_placed() {
    let (all, counter, _) = search_from(1);
    assert_eq!(all.len(), 1294);
    assert_eq!(counter, 158616768);
    assert!(all.contains(&KNOWN));
    for solution in all.iter() {
        assert_eq!(solution[0], KNOWN[0]);
        assert_clear(PUZZLE_BORDER, solution, 0);
        assert_eq!((covered_cells(solution) | PUZZLE_BORDER).count_ones(), 62);
    }
}

fn search_with_first_variant(variant: usize) -> (usize, u128) {
    let mut lookup = puzzle_variants();
    lookup[0] = vec![lookup[0][variant]];
    let mut current = [0u64; 8];
    let mut all = Vec::new();
    let mut counter: u128 = 0;
    solve_puzzle(PUZZLE_BORDER, &lookup, 0, &mut current, &mut all, &mut counter);
    assert!(!all.is_empty());
    for solution in all.iter() {
        assert_clear(PUZZLE_BORDER, solution, 0);
        assert!((!(covered_cells(solution) | PUZZLE_BORDER)).count_ones() >= 2);
    }
    (all.len(), counter)
}

#[test]
fn calendar_board_first_piece_as_0x307() {
    assert_eq!(search_with_first_variant(0), (7615, 1256483814));
}

#[test]
fn calendar_board_first_piece_as_0x607() {
    assert_eq!(search_with_first_variant(1), (8310, 1361078390));
}

#[test]
fn calendar_board_first_piece_as_0x703() {
    assert_eq!(search_with_first_variant(2), (6932, 1247992682));
}

#[test]
fn calendar_board_first_piece_as_0x706() {
    assert_eq!(search_with_first_variant(3), (7270, 1342006466));
}

#[test]
fn calendar_board_first_piece_as_0x10303() {
    assert_eq!(search_with_first_variant(4), (6840, 1263505954));
}

#[test]
fn calendar_board_first_piece_as_0x20303() {
    assert_eq!(search_with_first_variant(5), (8198, 1346586786));
}

#[test]
fn calendar_board_first_piece_as_0x30301() {
    assert_eq!(search_with_first_variant(6), (7075, 1230012554));
}

#[test]
fn calendar_board_first_piece_as_0x30302() {
    assert_eq!(search_with_first_variant(7), (7547, 1330821126));
}

#[test]
fn pieces_that_can_be_placed() {
    assert!(Piece::new(0x10303, 2, 3).is_placeable());
    assert!(Piece::new(0x1, 1, 1).is_placeable());
    assert!(Piece::new(0, 8, 0).is_placeable());
    assert!(Piece::new(0, 0, 8).is_placeable());
    assert!(Piece::new(0, 0, 2).is_placeable());
    assert!(!Piece::new(0, 0, 1).is_placeable());
    assert!(!Piece::new(0, 0, 0).is_placeable());
    assert!(!Piece::new(0, 3, 0).is_placeable());
    let wide = Piece { shape: 0, width: 9, height: 1 };
    assert!(!wide.is_placeable());
}
