use baeum::mutate::{
    ascii_number_fits_at, can_mutate_kind, change_ascii_integer_drawn, change_binary_integer_drawn,
    overwrite_copy_block_drawn, holds_delimiter, mutate_kind, select_block_at,
    select_block_ending_at,
    change_ascii_integer, change_ascii_integer_at, change_binary_integer,
    change_binary_integer_at, change_byte, change_byte_at, change_integer, change_integer_by,
    cross_over, find_close_number, find_number_range, flip_bit, flip_bit_at, insert_const_block,
    insert_const_block_at, insert_copy_block, insert_copy_block_at, is_delimiter_byte, is_digit,
    mutate, overwrite_const_block, overwrite_const_block_at, overwrite_copy_block,
    overwrite_copy_block_at, remove_block, remove_block_at, select_block, shuffle_ascii_block,
    shuffle_block, split_tokens, Endian,
};

fn sorted(mut v: Vec<u8>) -> Vec<u8> {
    v.sort();
    v
}

#[test]
fn flip_bit_at_flips_one_bit() {
    let r = flip_bit_at(vec![0x00, 0xff], 9);
    assert_eq!(r, vec![0x00, 0xfd]);
    let r = flip_bit_at(vec![0x00, 0xff], 0);
    assert_eq!(r, vec![0x01, 0xff]);
}

#[test]
fn flip_bit_twice_restores_buffer() {
    let buf = vec![0x12, 0x34, 0x56];
    for offset in 0..24 {
        assert_eq!(flip_bit_at(flip_bit_at(buf.clone(), offset), offset), buf);
    }
}

#[test]
fn flip_bit_changes_exactly_one_bit() {
    let buf = vec![0xa5u8; 10];
    for _ in 0..50 {
        let r = flip_bit(buf.clone());
        assert_eq!(r.len(), buf.len());
        let diff: u32 = r.iter().zip(buf.iter()).map(|(a, b)| (a ^ b).count_ones()).sum();
        assert_eq!(diff, 1);
    }
}

#[test]
fn change_byte_at_replaces_byte() {
    assert_eq!(change_byte_at(vec![1, 2, 3], 1, 9), vec![1, 9, 3]);
}

#[test]
fn change_byte_changes_at_most_one_byte() {
    let buf = vec![7u8; 16];
    for _ in 0..50 {
        let r = change_byte(buf.clone());
        assert_eq!(r.len(), 16);
        assert!(r.iter().zip(buf.iter()).filter(|(a, b)| a != b).count() <= 1);
    }
}

#[test]
fn digits_and_delimiters() {
    assert!(is_digit(b'0'));
    assert!(is_digit(b'9'));
    assert!(!is_digit(b'a'));
    assert!(!is_digit(b'/'));
    assert!(is_delimiter_byte(b' '));
    assert!(is_delimiter_byte(b'\n'));
    assert!(is_delimiter_byte(b'\t'));
    assert!(!is_delimiter_byte(b','));
}

#[test]
fn find_close_number_nearest_digit() {
    let buf = b"ab12cd".to_vec();
    assert_eq!(find_close_number(&buf, 0), Some(2));
    assert_eq!(find_close_number(&buf, 5), Some(3));
    assert_eq!(find_close_number(&buf, 2), Some(2));
}

#[test]
fn find_close_number_prefers_the_right_on_a_tie() {
    let buf = b"1a1".to_vec();
    assert_eq!(find_close_number(&buf, 1), Some(2));
}

#[test]
fn find_close_number_without_digits() {
    let buf = b"abc def".to_vec();
    assert_eq!(find_close_number(&buf, 3), None);
}

#[test]
fn find_number_range_with_sign() {
    let buf = b"x-123y".to_vec();
    assert_eq!(find_number_range(&buf, 3), (1, 4));
    assert_eq!(find_number_range(&buf, 2), (1, 4));
}

#[test]
fn find_number_range_inside_text() {
    let buf = b"a12b".to_vec();
    assert_eq!(find_number_range(&buf, 1), (1, 2));
    assert_eq!(find_number_range(&buf, 2), (1, 2));
}

#[test]
fn find_number_range_at_buffer_ends() {
    // A run of digits that reaches an end of the buffer has no boundary
    // there, and the range stops at the offset on that side.
    let buf = b"123".to_vec();
    assert_eq!(find_number_range(&buf, 1), (1, 1));
    let buf = b"12 ".to_vec();
    assert_eq!(find_number_range(&buf, 1), (1, 1));
    assert_eq!(find_number_range(&buf, 0), (0, 1));
}

#[test]
fn change_integer_by_each_kind() {
    assert_eq!(change_integer_by(5, 0, 2), 8);
    assert_eq!(change_integer_by(5, 1, 2), 2);
    assert_eq!(change_integer_by(5, 2, 0), 0xffffffff);
    assert_eq!(change_integer_by(i64::MAX, 0, 0), i64::MIN);
    assert_eq!(change_integer_by(i64::MIN, 1, 29), i64::MAX - 29);
}

#[test]
fn change_integer_stays_in_its_outcomes() {
    for _ in 0..100 {
        let r = change_integer(100);
        assert!((101..=130).contains(&r) || (70..=99).contains(&r) || r == 0xffffffff);
    }
}

#[test]
fn change_ascii_integer_at_adds() {
    let buf = b"abc 41 def".to_vec();
    assert_eq!(change_ascii_integer_at(buf, 0, 0, 0), b"abc 42 def".to_vec());
}

#[test]
fn change_ascii_integer_at_negative_number() {
    let buf = b"x-5y".to_vec();
    assert_eq!(change_ascii_integer_at(buf, 2, 1, 4), b"x-10y".to_vec());
}

#[test]
fn change_ascii_integer_at_replaces_by_constant() {
    let buf = b"a 7 b".to_vec();
    assert_eq!(change_ascii_integer_at(buf, 4, 2, 0), b"a 4294967295 b".to_vec());
}

#[test]
fn change_ascii_integer_at_without_digits() {
    let buf = b"no digits".to_vec();
    assert_eq!(change_ascii_integer_at(buf.clone(), 3, 0, 5), buf);
}

#[test]
fn change_ascii_integer_random() {
    for _ in 0..50 {
        let r = change_ascii_integer(b"v 100 w".to_vec()).unwrap();
        let text = String::from_utf8(r).unwrap();
        assert!(text.starts_with("v "));
        assert!(text.ends_with(" w"));
        let n: i64 = text[2..text.len() - 2].parse().unwrap();
        assert!((101..=130).contains(&n) || (70..=99).contains(&n) || n == 0xffffffff);
    }
}

#[test]
fn change_binary_integer_at_first_byte_most_significant() {
    let buf = vec![0, 0, 0, 1, 9, 9, 9, 9];
    let r = change_binary_integer_at(buf, 4, Endian::Little, 0, 0, 0);
    assert_eq!(r, vec![0, 0, 0, 2, 9, 9, 9, 9]);
}

#[test]
fn change_binary_integer_at_last_byte_most_significant() {
    let buf = vec![9, 1, 0, 0, 0, 9, 9, 9];
    let r = change_binary_integer_at(buf, 4, Endian::Big, 1, 1, 1);
    assert_eq!(r, vec![9, 0xff, 0xff, 0xff, 0xff, 9, 9, 9]);
}

#[test]
fn change_binary_integer_at_eight_bytes_is_signed() {
    let buf = vec![0xff; 8];
    let r = change_binary_integer_at(buf, 8, Endian::Little, 0, 0, 0);
    assert_eq!(r, vec![0; 8]);
}

#[test]
fn change_binary_integer_at_keeps_low_bytes() {
    let buf = vec![1, 2, 3, 4, 5, 6, 7, 8];
    let r = change_binary_integer_at(buf, 2, Endian::Little, 6, 2, 0);
    assert_eq!(r, vec![1, 2, 3, 4, 5, 6, 0xff, 0xff]);
    let r = change_binary_integer_at(vec![0x10, 0x20], 1, Endian::Big, 1, 0, 3);
    assert_eq!(r, vec![0x10, 0x24]);
}

#[test]
fn change_binary_integer_keeps_length() {
    for _ in 0..100 {
        let r = change_binary_integer(vec![3u8; 8]).unwrap();
        assert_eq!(r.len(), 8);
    }
}

#[test]
fn select_block_is_non_empty_and_inside() {
    let v = vec![0u8; 5];
    for _ in 0..200 {
        let (beg, end) = select_block(&v);
        assert!(beg < end && end <= 5);
    }
}

#[test]
fn block_cores() {
    let buf = vec![0, 1, 2, 3, 4, 5];
    assert_eq!(overwrite_copy_block_at(buf.clone(), 0, 2, 3), vec![0, 1, 2, 0, 1, 5]);
    assert_eq!(insert_copy_block_at(buf.clone(), 1, 3, 6), vec![0, 1, 2, 3, 4, 5, 1, 2]);
    assert_eq!(overwrite_const_block_at(buf.clone(), 2, 4, 9), vec![0, 1, 9, 9, 4, 5]);
    assert_eq!(insert_const_block_at(buf.clone(), 1, 3, 7), vec![0, 7, 7, 7, 1, 2, 3, 4, 5]);
    assert_eq!(remove_block_at(buf.clone(), 1, 5), vec![0, 5]);
    assert_eq!(cross_over(buf.clone()), buf);
}

#[test]
fn overlapping_copy_reads_the_block_first() {
    let buf = vec![1, 2, 3, 4];
    assert_eq!(overwrite_copy_block_at(buf, 0, 3, 1), vec![1, 1, 2, 3]);
}

#[test]
fn removing_inserted_block_restores_buffer() {
    let buf = vec![5, 6, 7, 8];
    let inserted = insert_copy_block_at(buf.clone(), 1, 3, 2);
    assert_eq!(remove_block_at(inserted, 2, 4), buf);
    let inserted = insert_const_block_at(buf.clone(), 3, 5, 0);
    assert_eq!(remove_block_at(inserted, 3, 8), buf);
}

#[test]
fn random_block_mutations_keep_their_shape() {
    let buf: Vec<u8> = (0..20).collect();
    for _ in 0..100 {
        if let Some(r) = overwrite_copy_block(buf.clone()) {
            assert_eq!(r.len(), 20);
        }
        assert_eq!(overwrite_const_block(buf.clone()).len(), 20);
        let l = insert_copy_block(buf.clone()).len();
        assert!(l > 20 && l <= 40);
        let l = insert_const_block(buf.clone()).len();
        assert!(l >= 20 && l < 40);
        let l = remove_block(buf.clone()).len();
        assert!(l < 20);
    }
}

#[test]
fn overwrite_copy_block_on_one_byte() {
    // The only block of a one-byte buffer is the whole buffer.
    assert_eq!(overwrite_copy_block(vec![42]), None);
}

#[test]
fn shuffle_block_is_a_permutation() {
    let buf: Vec<u8> = (0..30).collect();
    for _ in 0..50 {
        let r = shuffle_block(buf.clone());
        assert_eq!(sorted(r), buf);
    }
}

#[test]
fn split_tokens_drops_trailing_piece() {
    let t = split_tokens(b"ab cd\nef".to_vec());
    assert_eq!(t, vec![b"ab".to_vec(), b"cd".to_vec()]);
}

#[test]
fn split_tokens_keeps_empty_tokens() {
    let t = split_tokens(b"a  b\t".to_vec());
    assert_eq!(t, vec![b"a".to_vec(), b"".to_vec(), b"b".to_vec()]);
    assert_eq!(split_tokens(b"none".to_vec()), Vec::<Vec<u8>>::new());
}

#[test]
fn split_tokens_counts_delimiters() {
    let buf = b"x y z w\n".to_vec();
    let delimiters = buf.iter().filter(|&&c| c == b' ' || c == b'\n' || c == b'\t').count();
    assert_eq!(split_tokens(buf).len(), delimiters);
}

#[test]
fn shuffle_ascii_block_joins_tokens() {
    for _ in 0..50 {
        let r = shuffle_ascii_block(b"ab cd ef".to_vec());
        assert!(r == b"abcd".to_vec() || r == b"cdab".to_vec());
    }
}

#[test]
fn mutate_runs_every_kind() {
    let buf = b"GET /index 12 HTTP\n\x00\x01\x02\x03".to_vec();
    let mut some = 0;
    for _ in 0..500 {
        if let Some(r) = mutate(&buf) {
            assert!(r.len() <= 2 * buf.len());
            some += 1;
        }
    }
    assert!(some > 0);
}

#[test]
fn mutate_fails_only_where_the_drawn_mutation_fails() {
    // An empty buffer: only the binary integer change (always too short)
    // and the crossover draw something other than a failure.
    for _ in 0..200 {
        match mutate(&Vec::new()) {
            Some(r) => assert!(r.is_empty()),
            None => {}
        }
    }
}

#[test]
fn mutate_kind_applies_the_kind_drawn() {
    let buf = b"ab 12 cd\nef".to_vec();
    assert_eq!(mutate_kind(buf.clone(), 11), Some(buf.clone()));
    for _ in 0..50 {
        let r = mutate_kind(buf.clone(), 0).unwrap();
        let diff: u32 = r.iter().zip(buf.iter()).map(|(a, b)| (a ^ b).count_ones()).sum();
        assert_eq!(diff, 1);
        let r = mutate_kind(buf.clone(), 10).unwrap();
        assert!(r.len() < buf.len());
        let r = mutate_kind(buf.clone(), 5).unwrap();
        assert!(!r.contains(&b' ') && !r.contains(&b'\n'));
        let r = mutate_kind(buf.clone(), 4).unwrap();
        assert_eq!(sorted(r), sorted(buf.clone()));
    }
}

#[test]
fn can_mutate_kind_conditions() {
    assert!(can_mutate_kind(&b"ab".to_vec(), 0));
    assert!(!can_mutate_kind(&Vec::new(), 0));
    assert!(!can_mutate_kind(&b"ab".to_vec(), 5));
    assert!(can_mutate_kind(&b"a b".to_vec(), 5));
    assert!(can_mutate_kind(&Vec::new(), 3));
    assert!(can_mutate_kind(&Vec::new(), 11));
    assert!(holds_delimiter(&b"a\tb".to_vec()));
    assert!(!holds_delimiter(&b"ab".to_vec()));
}

#[test]
fn ascii_number_fits_checks_the_nearest_number() {
    assert!(ascii_number_fits_at(&b"-9223372036854775808 ".to_vec(), 3));
    assert!(!ascii_number_fits_at(&b"x9223372036854775808 ".to_vec(), 0));
    assert!(ascii_number_fits_at(&b"x9223372036854775808 1".to_vec(), 21));
    // A run of digits that fills the buffer is read one digit at a time.
    assert!(ascii_number_fits_at(&b"9223372036854775808".to_vec(), 5));
    assert!(ascii_number_fits_at(&b"no digits".to_vec(), 2));
}

#[test]
fn change_ascii_integer_fails_on_a_number_too_large() {
    for _ in 0..20 {
        assert_eq!(change_ascii_integer(b"n 99999999999999999999 x".to_vec()), None);
    }
}

#[test]
fn change_binary_integer_fails_only_when_too_short() {
    assert_eq!(change_binary_integer(Vec::new()), None);
    for _ in 0..100 {
        if let Some(r) = change_binary_integer(vec![1, 2, 3]) {
            assert_eq!(r.len(), 3);
        }
    }
}

#[test]
fn select_block_cores() {
    assert_eq!(select_block_at(10, 3, 2), (2, 5));
    assert_eq!(select_block_at(10, 9, 4), (4, 10));
    assert_eq!(select_block_ending_at(3, 5), (2, 5));
    assert_eq!(select_block_ending_at(7, 5), (0, 5));
}

#[test]
fn binary_integer_reads_back_the_new_value() {
    let buf = vec![0x00, 0x00, 0x12, 0x34, 0x56, 0x78, 0x9a, 0xbc];
    let r = change_binary_integer_at(buf.clone(), 4, Endian::Little, 2, 0, 9);
    let before = u32::from_be_bytes([0x12, 0x34, 0x56, 0x78]);
    let after = u32::from_be_bytes([r[2], r[3], r[4], r[5]]);
    assert_eq!(after, before + 10);
    let r = change_binary_integer_at(buf.clone(), 2, Endian::Big, 0, 1, 0);
    assert_eq!(u16::from_le_bytes([r[0], r[1]]), 0xffff);
    assert_eq!(&r[2..], &buf[2..]);
}

#[test]
fn drawn_cores_fail_exactly_where_no_draw_can_follow() {
    assert_eq!(overwrite_copy_block_drawn(vec![7], 0, 1, 0), None);
    assert_eq!(overwrite_copy_block_drawn(vec![1, 2, 3], 0, 3, 0), None);
    assert_eq!(overwrite_copy_block_drawn(vec![1, 2, 3], 0, 1, 1), Some(vec![1, 1, 3]));
    assert_eq!(change_binary_integer_drawn(vec![1, 2, 3], 4, Endian::Little, 0, 0, 0), None);
    assert_eq!(change_binary_integer_drawn(Vec::new(), 1, Endian::Big, 0, 0, 0), None);
    assert_eq!(change_binary_integer_drawn(vec![1, 2, 3], 2, Endian::Little, 1, 0, 0), Some(vec![1, 2, 4]));
    assert_eq!(change_ascii_integer_drawn(b"n 99999999999999999999 x".to_vec(), 0, 0, 0), None);
    assert_eq!(change_ascii_integer_drawn(b"n 9 x".to_vec(), 0, 0, 0), Some(b"n 10 x".to_vec()));
}

#[test]
fn mutate_kind_fails_where_the_kind_cannot_apply() {
    assert_eq!(mutate_kind(Vec::new(), 0), None);
    assert_eq!(mutate_kind(b"ab".to_vec(), 5), None);
    assert_eq!(mutate_kind(Vec::new(), 11), Some(Vec::new()));
}
