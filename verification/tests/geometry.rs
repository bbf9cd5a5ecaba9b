use calendar_puzzle::calendar::create_pieces_lookup;
use calendar_puzzle::piece::Piece;
use calendar_puzzle::variants::{remove_repeats, sort_pieces};
use std::cmp::Ordering;

fn piece(shape: u64, width: u64, height: u64) -> Piece {
    Piece::new(shape, width, height)
}

fn pieces(list: &[(u64, u64, u64)]) -> Vec<Piece> {
    list.iter().map(|&(s, w, h)| piece(s, w, h)).collect()
}

#[test]
fn new_keeps_its_arguments() {
    let p = Piece::new(0x10107, 3, 3);
    assert_eq!(p.shape, 0x10107);
    assert_eq!(p.width, 3);
    assert_eq!(p.height, 3);
    let q = Piece::new(0, 0, 0);
    assert_eq!((q.shape, q.width, q.height), (0, 0, 0));
}

#[test]
fn rotate_right_turns_clockwise() {
    assert_eq!(piece(0x10107, 3, 3).rotate_right(), piece(0x40407, 3, 3));
    assert_eq!(piece(0x40407, 3, 3).rotate_right(), piece(0x70404, 3, 3));
    assert_eq!(piece(0x70404, 3, 3).rotate_right(), piece(0x70101, 3, 3));
    assert_eq!(piece(0x10303, 2, 3).rotate_right(), piece(0x607, 3, 2));
    assert_eq!(piece(0x2030101, 2, 4).rotate_right(), piece(0x30E, 4, 2));
    assert_eq!(piece(0x30303, 2, 3).rotate_right(), piece(0x707, 3, 2));
}

#[test]
fn rotate_right_swaps_the_box() {
    let r = piece(0x1010103, 2, 4).rotate_right();
    assert_eq!((r.width, r.height), (4, 2));
    let e = piece(0, 0, 5).rotate_right();
    assert_eq!(e, piece(0, 5, 0));
}

#[test]
fn rotating_the_corner_piece_four_times_gives_it_back() {
    let corner = piece(0x10107, 3, 3);
    let turned = corner.rotate_right().rotate_right().rotate_right().rotate_right();
    assert_eq!(turned, corner);
    assert_eq!(turned.shape, 0x10107);
    assert_eq!(turned.width, 3);
    assert_eq!(turned.height, 3);
}

#[test]
fn four_rotations_give_every_puzzle_piece_back() {
    for p in create_pieces_lookup().iter() {
        let once = p.rotate_right();
        let twice = once.rotate_right();
        let thrice = twice.rotate_right();
        assert_eq!(thrice.rotate_right(), *p);
        assert_eq!(twice.rotate_right().rotate_right(), *p);
    }
}

#[test]
fn mirror_flips_left_to_right() {
    assert_eq!(piece(0x10107, 3, 3).mirror(), piece(0x40407, 3, 3));
    assert_eq!(piece(0x10303, 2, 3).mirror(), piece(0x20303, 2, 3));
    assert_eq!(piece(0x2030101, 2, 4).mirror(), piece(0x1030202, 2, 4));
    assert_eq!(piece(0x30303, 2, 3).mirror(), piece(0x30303, 2, 3));
}

#[test]
fn mirror_twice_gives_the_piece_back() {
    for p in create_pieces_lookup().iter() {
        assert_eq!(p.mirror().mirror(), *p);
        assert_eq!(p.mirror().width, p.width);
        assert_eq!(p.mirror().height, p.height);
    }
}

#[test]
fn cells_outside_the_box_are_dropped() {
    assert_eq!(piece(0xFF, 1, 1).rotate_right(), piece(0x1, 1, 1));
    assert_eq!(piece(0xFF, 1, 1).mirror(), piece(0x1, 1, 1));
    assert_eq!(piece(0xFFFF, 0, 0).rotate_right(), piece(0, 0, 0));
}

#[test]
fn the_full_grid_turns_into_itself() {
    let full = piece(u64::MAX, 8, 8);
    assert_eq!(full.rotate_right(), full);
    assert_eq!(full.mirror(), full);
    let corner = piece(0x8000000000000000, 8, 8);
    assert_eq!(corner.rotate_right(), piece(0x0100000000000000, 8, 8));
    assert_eq!(corner.mirror(), piece(0x0100000000000000, 8, 8));
    assert_eq!(piece(0x1, 8, 8).rotate_right(), piece(0x80, 8, 8));
}

#[test]
fn variants_of_the_puzzle_pieces() {
    let lookup = create_pieces_lookup();
    let expected: [Vec<Piece>; 8] = [
        pieces(&[
            (0x307, 3, 2),
            (0x607, 3, 2),
            (0x703, 3, 2),
            (0x706, 3, 2),
            (0x10303, 2, 3),
            (0x20303, 2, 3),
            (0x30301, 2, 3),
            (0x30302, 2, 3),
        ]),
        pieces(&[(0x10107, 3, 3), (0x40407, 3, 3), (0x70101, 3, 3), (0x70404, 3, 3)]),
        pieces(&[(0x507, 3, 2), (0x705, 3, 2), (0x30103, 2, 3), (0x30203, 2, 3)]),
        pieces(&[
            (0x10F, 4, 2),
            (0x80F, 4, 2),
            (0xF01, 4, 2),
            (0xF08, 4, 2),
            (0x1010103, 2, 4),
            (0x2020203, 2, 4),
            (0x3010101, 2, 4),
            (0x3020202, 2, 4),
        ]),
        pieces(&[
            (0x30E, 4, 2),
            (0x70C, 4, 2),
            (0xC07, 4, 2),
            (0xE03, 4, 2),
            (0x1010302, 2, 4),
            (0x1030202, 2, 4),
            (0x2020301, 2, 4),
            (0x2030101, 2, 4),
        ]),
        pieces(&[(0x707, 3, 2), (0x30303, 2, 3)]),
        pieces(&[(0x10704, 3, 3), (0x30206, 3, 3), (0x40701, 3, 3), (0x60203, 3, 3)]),
        pieces(&[
            (0x20F, 4, 2),
            (0x40F, 4, 2),
            (0xF02, 4, 2),
            (0xF04, 4, 2),
            (0x1010301, 2, 4),
            (0x1030101, 2, 4),
            (0x2020302, 2, 4),
            (0x2030202, 2, 4),
        ]),
    ];
    for k in 0..8 {
        assert_eq!(lookup[k].get_variants(), expected[k]);
    }
}

#[test]
fn solid_block_has_an_upright_and_a_lying_variant() {
    let variants = piece(0x30303, 2, 3).get_variants();
    assert_eq!(variants, pieces(&[(0x707, 3, 2), (0x30303, 2, 3)]));
}

#[test]
fn fully_symmetric_pieces_have_one_variant() {
    assert_eq!(piece(0x1, 1, 1).get_variants(), pieces(&[(0x1, 1, 1)]));
    assert_eq!(piece(0x303, 2, 2).get_variants(), pieces(&[(0x303, 2, 2)]));
    assert_eq!(piece(u64::MAX, 8, 8).get_variants(), pieces(&[(u64::MAX, 8, 8)]));
    assert_eq!(piece(0, 0, 0).get_variants(), pieces(&[(0, 0, 0)]));
    assert_eq!(piece(0, 7, 7).get_variants(), pieces(&[(0, 7, 7)]));
}

#[test]
fn variants_are_distinct_ascending_and_keep_the_cell_count() {
    for p in create_pieces_lookup().iter() {
        let variants = p.get_variants();
        assert!(1 <= variants.len() && variants.len() <= 8);
        assert!(variants.contains(p));
        for i in 0..variants.len() {
            assert_eq!(variants[i].shape.count_ones(), p.shape.count_ones());
            for j in (i + 1)..variants.len() {
                assert!(variants[i].shape < variants[j].shape);
                assert_ne!(variants[i], variants[j]);
            }
        }
    }
}

#[test]
fn variants_of_a_corner_cell() {
    assert_eq!(
        piece(0x1, 7, 7).get_variants(),
        pieces(&[
            (0x1, 7, 7),
            (0x40, 7, 7),
            (0x1000000000000, 7, 7),
            (0x40000000000000, 7, 7),
        ])
    );
}

#[test]
fn one_cell_in_a_larger_box_has_each_orientation_once() {
    let variants = piece(0x1, 1, 2).get_variants();
    assert_eq!(variants.len(), 4);
    assert_eq!(variants, pieces(&[(0x1, 1, 2), (0x1, 2, 1), (0x2, 2, 1), (0x100, 1, 2)]));
    assert_eq!(piece(0x1, 2, 1).get_variants(), variants);
    assert_eq!(piece(0, 1, 2).get_variants(), pieces(&[(0, 1, 2), (0, 2, 1)]));
    assert_eq!(
        piece(0x1, 1, 3).get_variants(),
        pieces(&[(0x1, 1, 3), (0x1, 3, 1), (0x4, 3, 1), (0x10000, 1, 3)])
    );
}

#[test]
fn no_variant_occurs_twice() {
    let mut tried = 0;
    for width in 0..=8u64 {
        for height in 0..=8u64 {
            for shape in [0u64, 0x1, 0x3, 0x101, 0x103, 0x8001, 0x8000000000000001, u64::MAX] {
                let variants = piece(shape, width, height).get_variants();
                assert!(1 <= variants.len() && variants.len() <= 8);
                for i in 0..variants.len() {
                    for j in (i + 1)..variants.len() {
                        assert_ne!(variants[i], variants[j]);
                        assert!(variants[i].shape <= variants[j].shape);
                        assert!(variants[i].stands_before(&variants[j]));
                    }
                }
                tried += 1;
            }
        }
    }
    assert_eq!(tried, 648);
}

#[test]
fn compare_shape_looks_at_the_shape_alone() {
    assert_eq!(piece(1, 8, 8).compare_shape(&piece(2, 0, 0)), Ordering::Less);
    assert_eq!(piece(2, 0, 0).compare_shape(&piece(1, 8, 8)), Ordering::Greater);
    assert_eq!(piece(7, 1, 2).compare_shape(&piece(7, 2, 1)), Ordering::Equal);
    assert_eq!(piece(0, 0, 0).compare_shape(&piece(u64::MAX, 0, 0)), Ordering::Less);
    assert_eq!(piece(u64::MAX, 3, 3).compare_shape(&piece(u64::MAX, 3, 3)), Ordering::Equal);
}

#[test]
fn stands_before_breaks_ties_by_width_then_height() {
    assert!(piece(1, 8, 8).stands_before(&piece(2, 0, 0)));
    assert!(!piece(2, 0, 0).stands_before(&piece(1, 8, 8)));
    assert!(piece(7, 1, 2).stands_before(&piece(7, 2, 1)));
    assert!(!piece(7, 2, 1).stands_before(&piece(7, 1, 2)));
    assert!(piece(7, 2, 1).stands_before(&piece(7, 2, 3)));
    assert!(!piece(7, 2, 3).stands_before(&piece(7, 2, 1)));
    assert!(!piece(7, 2, 3).stands_before(&piece(7, 2, 3)));
}

#[test]
fn variants_drop_cells_outside_the_box() {
    assert_eq!(piece(0xFF, 1, 1).get_variants(), pieces(&[(0x1, 1, 1)]));
}

#[test]
fn sort_pieces_orders_by_shape_then_box() {
    let mut list = pieces(&[(5, 1, 1), (3, 2, 1), (5, 0, 0), (1, 1, 1), (3, 1, 2), (0, 8, 8)]);
    sort_pieces(&mut list);
    assert_eq!(
        list,
        pieces(&[(0, 8, 8), (1, 1, 1), (3, 1, 2), (3, 2, 1), (5, 0, 0), (5, 1, 1)])
    );
    let mut ties = pieces(&[(3, 2, 2), (3, 2, 1), (3, 1, 7), (3, 2, 1)]);
    sort_pieces(&mut ties);
    assert_eq!(ties, pieces(&[(3, 1, 7), (3, 2, 1), (3, 2, 1), (3, 2, 2)]));
    let mut none: Vec<Piece> = Vec::new();
    sort_pieces(&mut none);
    assert!(none.is_empty());
    let mut large = pieces(&[(u64::MAX, 1, 1), (0x8000000000000000, 1, 1), (1, 1, 1)]);
    sort_pieces(&mut large);
    assert_eq!(large, pieces(&[(1, 1, 1), (0x8000000000000000, 1, 1), (u64::MAX, 1, 1)]));
}

#[test]
fn remove_repeats_drops_only_neighbours() {
    let mut list = pieces(&[(1, 1, 1), (1, 1, 1), (2, 1, 1), (1, 1, 1), (1, 1, 2), (1, 1, 2), (1, 1, 2)]);
    remove_repeats(&mut list);
    assert_eq!(list, pieces(&[(1, 1, 1), (2, 1, 1), (1, 1, 1), (1, 1, 2)]));
    let mut one = pieces(&[(7, 3, 1)]);
    remove_repeats(&mut one);
    assert_eq!(one, pieces(&[(7, 3, 1)]));
    let mut none: Vec<Piece> = Vec::new();
    remove_repeats(&mut none);
    assert!(none.is_empty());
}
