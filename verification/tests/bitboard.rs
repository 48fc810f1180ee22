use mogen::board::bitboard::Bitboard;

const CASES: [(u64, u64); 4] = [
    (79196, 80559),
    (56301, 9058),
    (16642, 43944),
    (31223, 55648),
];

#[test]
fn test_bitand() {
    for case in CASES {
        assert_eq!(
            Bitboard(case.0) & Bitboard(case.1),
            Bitboard(case.0 & case.1)
        );
    }
}

#[test]
fn test_bitor() {
    for case in CASES {
        assert_eq!(
            Bitboard(case.0) | Bitboard(case.1),
            Bitboard(case.0 | case.1)
        );
    }
}

#[test]
fn test_bitxor() {
    for case in CASES {
        assert_eq!(
            Bitboard(case.0) ^ Bitboard(case.1),
            Bitboard(case.0 ^ case.1)
        );
    }
}

#[test]
fn test_bitand_assign() {
    for case in CASES {
        let mut result = Bitboard(case.0);
        result &= Bitboard(case.1);
        assert_eq!(result, Bitboard(case.0) & Bitboard(case.1))
    }
}

#[test]
fn test_bitor_assign() {
    for case in CASES {
        let mut result = Bitboard(case.0);
        result |= Bitboard(case.1);
        assert_eq!(result, Bitboard(case.0) | Bitboard(case.1))
    }
}

#[test]
fn test_bitxor_assign() {
    for case in CASES {
        let mut result = Bitboard(case.0);
        result ^= Bitboard(case.1);
        assert_eq!(result, Bitboard(case.0) ^ Bitboard(case.1))
    }
}

#[test]
fn test_subsets() {
    let bb = Bitboard(0b1101);
    let mut subsets = bb.subsets();
    while let Some(subset) = subsets.next() {
        println!("{:04b}", subset.0);
    }
}

#[test]
fn test_shift() {
    let bb = Bitboard(0b110101011011);

    // shl
    assert_eq!(bb << 4_u8, Bitboard(bb.0 << 4_u8));
    assert_eq!(bb << 4_u16, Bitboard(bb.0 << 4_u16));
    assert_eq!(bb << 4_u32, Bitboard(bb.0 << 4_u32));
    assert_eq!(bb << 4_u64, Bitboard(bb.0 << 4_u64));
    assert_eq!(bb << 4_u128, Bitboard(bb.0 << 4_u128));
    assert_eq!(bb << 4_usize, Bitboard(bb.0 << 4_usize));
    assert_eq!(bb << 4_i8, Bitboard(bb.0 << 4_i8));
    assert_eq!(bb << 4_i16, Bitboard(bb.0 << 4_i16));
    assert_eq!(bb << 4_i32, Bitboard(bb.0 << 4_i32));
    assert_eq!(bb << 4_i64, Bitboard(bb.0 << 4_i64));
    assert_eq!(bb << 4_i128, Bitboard(bb.0 << 4_i128));
    assert_eq!(bb << 4_isize, Bitboard(bb.0 << 4_isize));

    // shr
    assert_eq!(bb >> 4_u8, Bitboard(bb.0 >> 4_u8));
    assert_eq!(bb >> 4_u16, Bitboard(bb.0 >> 4_u16));
    assert_eq!(bb >> 4_u32, Bitboard(bb.0 >> 4_u32));
    assert_eq!(bb >> 4_u64, Bitboard(bb.0 >> 4_u64));
    assert_eq!(bb >> 4_u128, Bitboard(bb.0 >> 4_u128));
    assert_eq!(bb >> 4_usize, Bitboard(bb.0 >> 4_usize));
    assert_eq!(bb >> 4_i8, Bitboard(bb.0 >> 4_i8));
    assert_eq!(bb >> 4_i16, Bitboard(bb.0 >> 4_i16));
    assert_eq!(bb >> 4_i32, Bitboard(bb.0 >> 4_i32));
    assert_eq!(bb >> 4_i64, Bitboard(bb.0 >> 4_i64));
    assert_eq!(bb >> 4_i128, Bitboard(bb.0 >> 4_i128));
    assert_eq!(bb >> 4_isize, Bitboard(bb.0 >> 4_isize));
}

#[test]
fn subsets_walk_down_from_the_whole_set() {
    // The walk starts at the whole set and ends at the empty set; the lowest square of the set
    // alone is never visited on the way.
    let mut subsets = Bitboard(0b1101).subsets();
    let mut seen = Vec::new();
    while let Some(subset) = subsets.next() {
        seen.push(subset.0);
    }
    assert_eq!(seen, vec![0b1101, 0b1100, 0b1001, 0b1000, 0b0101, 0b0100, 0]);
}

#[test]
fn pop_lsb_takes_the_lowest_square() {
    let mut bb = Bitboard(0b1011000);
    assert_eq!(bb.pop_lsb(), 3);
    assert_eq!(bb, Bitboard(0b1010000));
    assert_eq!(bb.pop_lsb(), 4);
    assert_eq!(bb.pop_lsb(), 6);
    assert!(bb.is_empty());
}

#[test]
fn not_complements_every_square() {
    assert_eq!(!Bitboard(0), Bitboard(u64::MAX));
    assert_eq!(!Bitboard(Bitboard::EDGES), Bitboard(0x007e7e7e7e7e7e00));
}

#[test]
fn bitboard_grid_picture() {
    let picture = Bitboard(0x8000000000000001).to_string();
    let lines: Vec<&str> = picture.split('\n').collect();
    assert_eq!(lines.len(), 8);
    assert_eq!(lines[0], "- - - - - - - #");
    assert_eq!(lines[7], "# - - - - - - -");
    assert_eq!(lines[3], "- - - - - - - -");
    assert_eq!(picture.len(), 127);
}

#[test]
fn empty_and_universe_sets() {
    assert_eq!(Bitboard::empty(), Bitboard(0));
    assert_eq!(Bitboard::universe(), Bitboard(u64::MAX));
    assert_eq!(!Bitboard::empty(), Bitboard::universe());
    assert_eq!(Bitboard::universe().0.count_ones(), 64);
}
