use bitboard::BitboardInternal;

fn bits_of(board: &BitboardInternal) -> Vec<bool> {
    let mut v: Vec<bool> = Vec::new();
    let mut i: usize = 0;
    while i < board.capacity() {
        v.push(board.is_set(i));
        i += 1;
    }
    v
}

fn board_with(capacity: usize, bits: &[usize]) -> BitboardInternal {
    let mut b = BitboardInternal::new(capacity);
    for &i in bits {
        b.set(i);
    }
    b
}

#[test]
fn fresh_board_is_all_zero() {
    for &cap in &[1usize, 63, 64, 65, 81, 128, 361] {
        let b = BitboardInternal::new(cap);
        assert_eq!(b.capacity(), cap);
        assert!(b.is_empty());
        for i in 0..cap {
            assert!(!b.is_set(i));
            assert!(b.is_unset(i));
        }
    }
}

#[test]
fn set_then_unset_round_trip() {
    let mut b = BitboardInternal::new(81);
    b.set(40);
    assert!(b.is_set(40));
    assert!(!b.is_unset(40));
    b.unset(40);
    assert!(!b.is_set(40));
    assert!(b.is_unset(40));
}

#[test]
fn set_leaves_other_bits_alone() {
    let mut b = BitboardInternal::new(128);
    b.set(5);
    let before = bits_of(&b);
    b.set(77);
    let after = bits_of(&b);
    for j in 0..128usize {
        if j != 77 {
            assert_eq!(after[j], before[j]);
        }
    }
    assert!(after[77]);
}

#[test]
fn unset_leaves_other_bits_alone() {
    let mut b = board_with(128, &[5, 64, 77, 127]);
    let before = bits_of(&b);
    b.unset(64);
    let after = bits_of(&b);
    for j in 0..128usize {
        if j != 64 {
            assert_eq!(after[j], before[j]);
        }
    }
    assert!(!after[64]);
}

#[test]
fn is_empty_tracks_set_and_unset() {
    let mut b = BitboardInternal::new(100);
    assert!(b.is_empty());
    b.set(99);
    assert!(!b.is_empty());
    b.set(3);
    b.unset(99);
    assert!(!b.is_empty());
    b.unset(3);
    assert!(b.is_empty());
}

#[test]
fn capacity_64_corners() {
    let mut b = BitboardInternal::new(64);
    b.set(0);
    b.set(63);
    assert!(b.is_set(0));
    assert!(b.is_set(63));
    assert!(!b.is_set(1));
    assert!(!b.is_empty());
}

#[test]
fn capacity_128_second_word() {
    let mut b = BitboardInternal::new(128);
    b.set(70);
    for j in 0..128usize {
        assert_eq!(b.is_set(j), j == 70);
    }
}

#[test]
fn capacity_one() {
    let mut b = BitboardInternal::new(1);
    assert!(b.is_empty());
    b.set(0);
    assert!(b.is_set(0));
    assert!(!b.is_empty());
    b.unset(0);
    assert!(b.is_empty());
}

#[test]
fn union_is_commutative() {
    let mut ab = board_with(81, &[0, 40, 80]);
    let b = board_with(81, &[1, 40, 79]);
    ab.union_with(&b);
    let mut ba = board_with(81, &[1, 40, 79]);
    let a = board_with(81, &[0, 40, 80]);
    ba.union_with(&a);
    assert_eq!(bits_of(&ab), bits_of(&ba));
}

#[test]
fn union_is_idempotent() {
    let mut a = board_with(81, &[0, 40, 80]);
    let copy = board_with(81, &[0, 40, 80]);
    a.union_with(&copy);
    assert_eq!(bits_of(&a), bits_of(&copy));
}

#[test]
fn union_with_empty_changes_nothing() {
    let mut a = board_with(81, &[0, 40, 80]);
    let empty = BitboardInternal::new(81);
    a.union_with(&empty);
    assert_eq!(bits_of(&a), bits_of(&board_with(81, &[0, 40, 80])));
}

#[test]
fn union_then_difference_keeps_exactly_a_minus_b() {
    // (A ∪ B) − B == A − B
    let mut left = board_with(130, &[1, 2, 64, 129]);
    let b = board_with(130, &[2, 64, 100]);
    left.union_with(&b);
    left.difference_with(&b);
    let mut right = board_with(130, &[1, 2, 64, 129]);
    right.difference_with(&b);
    assert_eq!(bits_of(&left), bits_of(&right));
    for j in 0..130usize {
        assert_eq!(left.is_set(j), j == 1 || j == 129);
    }
}

#[test]
fn difference_with_self_empties() {
    let mut a = board_with(70, &[0, 33, 69]);
    let copy = board_with(70, &[0, 33, 69]);
    a.difference_with(&copy);
    assert!(a.is_empty());
}

#[test]
fn difference_with_empty_changes_nothing() {
    let mut a = board_with(70, &[0, 33, 69]);
    let empty = BitboardInternal::new(70);
    a.difference_with(&empty);
    assert_eq!(bits_of(&a), bits_of(&board_with(70, &[0, 33, 69])));
}

#[test]
fn union_difference_round_trip_disjoint_restores() {
    let mut a = board_with(128, &[1, 60]);
    let b = board_with(128, &[3, 100]);
    a.union_with(&b);
    a.difference_with(&b);
    assert_eq!(bits_of(&a), bits_of(&board_with(128, &[1, 60])));
}

#[test]
fn union_difference_round_trip_overlap_loses_shared_bits() {
    let mut a = board_with(128, &[1, 60]);
    let b = board_with(128, &[60, 100]);
    a.union_with(&b);
    a.difference_with(&b);
    // bit 60 was shared, so it does not come back
    for j in 0..128usize {
        assert_eq!(a.is_set(j), j == 1);
    }
}

#[test]
fn whole_line_within_one_word() {
    let mut b = BitboardInternal::new(64);
    b.set_whole_line(0, 8);
    for j in 0..64usize {
        assert_eq!(b.is_set(j), j < 8);
    }
}

#[test]
fn whole_line_later_row() {
    let mut b = BitboardInternal::new(81);
    b.set_whole_line(4, 9);
    for j in 0..81usize {
        assert_eq!(b.is_set(j), 36 <= j && j < 45);
    }
}

#[test]
fn whole_line_straddles_two_words() {
    // start index 7 * 9 = 63: one bit in word 0, eight bits in word 1
    let mut b = BitboardInternal::new(128);
    b.set_whole_line(7, 9);
    for j in 0..128usize {
        assert_eq!(b.is_set(j), 63 <= j && j < 72);
    }
}

#[test]
fn whole_line_ends_exactly_at_word_boundary() {
    // start index 7 * 8 = 56: the row fills bits 56..64 and nothing more
    let mut b = BitboardInternal::new(128);
    b.set_whole_line(7, 8);
    for j in 0..128usize {
        assert_eq!(b.is_set(j), 56 <= j && j < 64);
    }
}

#[test]
fn whole_line_keeps_existing_bits() {
    let mut b = board_with(128, &[0, 62, 90]);
    b.set_whole_line(7, 9);
    for j in 0..128usize {
        let in_line = 63 <= j && j < 72;
        assert_eq!(b.is_set(j), in_line || j == 0 || j == 62 || j == 90);
    }
}

#[test]
fn widest_supported_line() {
    let mut b = BitboardInternal::new(128);
    b.set_whole_line(1, 63);
    for j in 0..128usize {
        assert_eq!(b.is_set(j), 63 <= j && j < 126);
    }
}

#[test]
fn render_by_line_shows_rows_and_padding() {
    let mut b = BitboardInternal::new(8);
    b.set(0);
    b.set(7);
    let text = String::from_utf8(b.render_by_line(8)).unwrap();
    let mut expected = String::from("10000001\n");
    for _ in 0..7usize {
        expected.push_str("00000000\n");
    }
    assert_eq!(text, expected);
}

#[test]
fn render_by_line_single_row() {
    let mut b = BitboardInternal::new(128);
    b.set(1);
    b.set(127);
    let text = String::from_utf8(b.render_by_line(128)).unwrap();
    let mut expected = String::new();
    for j in 0..128usize {
        expected.push(if j == 1 || j == 127 { '1' } else { '0' });
    }
    expected.push('\n');
    assert_eq!(text, expected);
}
