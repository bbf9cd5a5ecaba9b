use calendar_puzzle::calendar::{
    covered_cells, create_day_lookup, create_month_lookup, create_pieces_lookup, fits_date,
    is_valid_date, PUZZLE_BORDER,
};
use calendar_puzzle::piece::Piece;

#[test]
fn test_month_lookup() {
    let month_lookup = create_month_lookup();
    assert_eq!(month_lookup[0], 0x8000000000000000);
    assert_eq!(month_lookup[1], 0x4000000000000000);
    assert_eq!(month_lookup[2], 0x2000000000000000);
    assert_eq!(month_lookup[3], 0x1000000000000000);
    assert_eq!(month_lookup[4], 0x0800000000000000);
    assert_eq!(month_lookup[5], 0x0400000000000000);
    assert_eq!(month_lookup[6], 0x0080000000000000);
    assert_eq!(month_lookup[7], 0x0040000000000000);
    assert_eq!(month_lookup[8], 0x0020000000000000);
    assert_eq!(month_lookup[9], 0x0010000000000000);
    assert_eq!(month_lookup[10], 0x0008000000000000);
    assert_eq!(month_lookup[11], 0x0004000000000000);
}

#[test]
fn test_day_lookup() {
    let day_lookup = create_day_lookup();
    assert_eq!(day_lookup[0], 0x0000800000000000);
    assert_eq!(day_lookup[1], 0x0000400000000000);
    assert_eq!(day_lookup[2], 0x0000200000000000);
    assert_eq!(day_lookup[3], 0x0000100000000000);
    assert_eq!(day_lookup[4], 0x0000080000000000);
    assert_eq!(day_lookup[5], 0x0000040000000000);
    assert_eq!(day_lookup[6], 0x0000020000000000);
    assert_eq!(day_lookup[7], 0x0000008000000000);
    assert_eq!(day_lookup[8], 0x0000004000000000);
    assert_eq!(day_lookup[9], 0x0000002000000000);
    assert_eq!(day_lookup[10], 0x0000001000000000);
    assert_eq!(day_lookup[11], 0x0000000800000000);
    assert_eq!(day_lookup[12], 0x0000000400000000);
    assert_eq!(day_lookup[13], 0x0000000200000000);
    assert_eq!(day_lookup[14], 0x0000000080000000);
    assert_eq!(day_lookup[15], 0x0000000040000000);
    assert_eq!(day_lookup[16], 0x0000000020000000);
    assert_eq!(day_lookup[17], 0x0000000010000000);
    assert_eq!(day_lookup[18], 0x0000000008000000);
    assert_eq!(day_lookup[19], 0x0000000004000000);
    assert_eq!(day_lookup[20], 0x0000000002000000);
    assert_eq!(day_lookup[21], 0x0000000000800000);
    assert_eq!(day_lookup[22], 0x0000000000400000);
    assert_eq!(day_lookup[23], 0x0000000000200000);
    assert_eq!(day_lookup[24], 0x0000000000100000);
    assert_eq!(day_lookup[25], 0x0000000000080000);
    assert_eq!(day_lookup[26], 0x0000000000040000);
    assert_eq!(day_lookup[27], 0x0000000000020000);
    assert_eq!(day_lookup[28], 0x0000000000008000);
    assert_eq!(day_lookup[29], 0x0000000000004000);
    assert_eq!(day_lookup[30], 0x0000000000002000);
}

#[test]
fn test_bitmap_combination() {
    let bitmap: u64 = 0x0303010101011FFF;
    let piece: u64 = 0xE0C0000000000000;
    assert_eq!(bitmap | piece, 0xE3C3010101011FFF);
    assert_eq!(bitmap & piece, 0x0000000000000000);
}

#[test]
fn border_constant() {
    assert_eq!(PUZZLE_BORDER, 0x0303010101011FFF);
    assert_eq!(PUZZLE_BORDER.count_ones(), 21);
}

#[test]
fn date_cells_lie_off_the_border() {
    let days = create_day_lookup();
    let months = create_month_lookup();
    let mut seen: u64 = PUZZLE_BORDER;
    for mask in months.iter().chain(days.iter()) {
        assert_eq!(mask.count_ones(), 1);
        assert_eq!(seen & mask, 0);
        seen |= mask;
    }
    assert_eq!(seen, u64::MAX);
}

#[test]
fn pieces_lookup_holds_the_eight_pieces() {
    let pieces = create_pieces_lookup();
    let expected: [(u64, u64, u64); 8] = [
        (0x10303, 2, 3),
        (0x10107, 3, 3),
        (0x30103, 2, 3),
        (0x1010103, 2, 4),
        (0x2030101, 2, 4),
        (0x30303, 2, 3),
        (0x60203, 3, 3),
        (0x1030101, 2, 4),
    ];
    for k in 0..8 {
        assert_eq!(pieces[k], Piece::new(expected[k].0, expected[k].1, expected[k].2));
    }
    let cells: u32 = pieces.iter().map(|p| p.shape.count_ones()).sum();
    assert_eq!(cells, 41);
}

#[test]
fn valid_dates() {
    assert!(is_valid_date(0, 0));
    assert!(is_valid_date(0, 30));
    assert!(!is_valid_date(0, 31));
    assert!(is_valid_date(1, 28));
    assert!(!is_valid_date(1, 29));
    assert!(!is_valid_date(1, 30));
    assert!(is_valid_date(3, 29));
    assert!(!is_valid_date(3, 30));
    assert!(is_valid_date(11, 30));
    let lengths: [usize; 12] = [31, 29, 31, 30, 31, 30, 31, 31, 30, 31, 30, 31];
    let mut dates = 0;
    for month in 0..12 {
        for day in 0..31 {
            assert_eq!(is_valid_date(month, day), day < lengths[month]);
            if is_valid_date(month, day) {
                dates += 1;
            }
        }
    }
    assert_eq!(dates, 366);
}

#[test]
fn covered_cells_is_the_union() {
    assert_eq!(covered_cells(&[0; 8]), 0);
    assert_eq!(covered_cells(&[1, 2, 4, 8, 16, 32, 64, 128]), 255);
    assert_eq!(covered_cells(&[0, 0, 0, 0, 0, 0, 0, 0x8000000000000000]), 0x8000000000000000);
    let solution: [u64; 8] = [
        0x000000000060E000,
        0x00000002020E0000,
        0x000000141C000000,
        0xF080000000000000,
        0x0040406020000000,
        0x0038380000000000,
        0x0C04060000000000,
        0x00008080C0800000,
    ];
    assert_eq!(covered_cells(&solution), 0xFCFCFEF6FEEEE000);
}

#[test]
fn fits_date_looks_at_both_cells() {
    let solution: [u64; 8] = [
        0x000000000060E000,
        0x00000002020E0000,
        0x000000141C000000,
        0xC080808000000000,
        0x2020604000000000,
        0x1C1C000000000000,
        0x00000020E0800000,
        0x00001E0800000000,
    ];
    assert_eq!(covered_cells(&solution), 0xFCBCFEFEFEEEE000);
    let days = create_day_lookup();
    let months = create_month_lookup();
    let mut fitting = Vec::new();
    for month in 0..12 {
        for day in 0..31 {
            if fits_date(&solution, months[month], days[day]) {
                fitting.push((month, day));
            }
        }
    }
    assert_eq!(fitting, vec![(7, 24)]);
    assert!(fits_date(&solution, 0x0040000000000000, 0x0000000000100000));
    assert!(!fits_date(&solution, 0x0040000000000000, 0x0000000000080000));
    assert!(!fits_date(&solution, 0x0080000000000000, 0x0000000000100000));
}

#[test]
fn two_day_cells_left_free_fit_no_date() {
    let solution: [u64; 8] = [
        0x000000000060E000,
        0x00000002020E0000,
        0x000000141C000000,
        0xF080000000000000,
        0x0040406020000000,
        0x0038380000000000,
        0x0C04060000000000,
        0x00008080C0800000,
    ];
    let days = create_day_lookup();
    let months = create_month_lookup();
    for month in 0..12 {
        for day in 0..31 {
            assert!(!fits_date(&solution, months[month], days[day]));
        }
    }
    assert!(fits_date(&solution, 0, days[11]));
    assert!(fits_date(&solution, days[24], days[11]));
}
