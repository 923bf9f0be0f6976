use md5_search::PasswordGenerator;

fn collect(mut generator: PasswordGenerator) -> Vec<String> {
    let mut out = Vec::new();
    while let Some(candidate) = generator.next() {
        out.push(candidate);
    }
    out
}

#[test]
fn new_walks_every_candidate_in_order() {
    let charset = ['a', 'b'];
    let mut generator = PasswordGenerator::new(&charset, 2);
    assert_eq!(generator.next(), Some("aa".to_string()));
    assert_eq!(generator.next(), Some("ab".to_string()));
    assert_eq!(generator.next(), Some("ba".to_string()));
    assert_eq!(generator.next(), Some("bb".to_string()));
    assert_eq!(generator.next(), None);
}

#[test]
fn exhausted_generator_stays_exhausted() {
    let charset = ['x'];
    let mut generator = PasswordGenerator::new(&charset, 3);
    assert_eq!(generator.next(), Some("xxx".to_string()));
    assert_eq!(generator.next(), None);
    assert_eq!(generator.next(), None);
    generator.increment();
    assert_eq!(generator.next(), None);
}

#[test]
fn whole_space_has_base_to_the_length_candidates() {
    let charset = ['a', 'b', 'c'];
    let all = collect(PasswordGenerator::new(&charset, 3));
    assert_eq!(all.len(), 27);
    assert_eq!(all[0], "aaa");
    assert_eq!(all[1], "aab");
    assert_eq!(all[3], "aba");
    assert_eq!(all[9], "baa");
    assert_eq!(all[26], "ccc");
}

#[test]
fn whole_space_is_strictly_increasing() {
    let charset = ['0', '1', '2', '3'];
    let all = collect(PasswordGenerator::new(&charset, 4));
    assert_eq!(all.len(), 256);
    for pair in all.windows(2) {
        assert!(pair[0] < pair[1]);
    }
}

#[test]
fn single_symbol_candidates() {
    let charset = ['a', 'b', 'c'];
    let all = collect(PasswordGenerator::new(&charset, 1));
    assert_eq!(all, vec!["a", "b", "c"]);
}

#[test]
fn increment_skips_one_candidate() {
    let charset = ['a', 'b'];
    let mut generator = PasswordGenerator::new(&charset, 2);
    generator.increment();
    assert_eq!(generator.next(), Some("ab".to_string()));
    generator.increment();
    assert_eq!(generator.next(), Some("bb".to_string()));
    assert_eq!(generator.next(), None);
}

#[test]
fn increment_carries_to_the_left() {
    let charset = ['a', 'b', 'c'];
    let mut generator = PasswordGenerator::new(&charset, 3);
    for _ in 0..8 {
        generator.increment();
    }
    assert_eq!(generator.next(), Some("acc".to_string()));
    assert_eq!(generator.next(), Some("baa".to_string()));
}

#[test]
fn increment_past_the_last_candidate_ends_the_walk() {
    let charset = ['a', 'b'];
    let mut generator = PasswordGenerator::new(&charset, 1);
    generator.increment();
    assert_eq!(generator.next(), Some("b".to_string()));
    let mut generator = PasswordGenerator::new(&charset, 1);
    generator.increment();
    generator.increment();
    assert_eq!(generator.next(), None);
}

#[test]
fn share_starts_at_its_leading_digit_and_strides() {
    let charset = ['a', 'b', 'c'];
    let first = collect(PasswordGenerator::with_offset_and_stride(&charset, 2, 0, 2));
    assert_eq!(first, vec!["aa", "ac", "bb", "ca", "cc"]);
    let second = collect(PasswordGenerator::with_offset_and_stride(&charset, 2, 1, 2));
    assert_eq!(second, vec!["ba", "bc", "cb"]);
}

#[test]
fn share_with_stride_past_the_end_ends_after_one() {
    let charset = ['a', 'b', 'c'];
    let last = collect(PasswordGenerator::with_offset_and_stride(&charset, 1, 2, 3));
    assert_eq!(last, vec!["c"]);
}

#[test]
fn shares_of_single_symbols_split_the_alphabet() {
    let charset = ['a', 'b', 'c', 'd', 'e'];
    let first = collect(PasswordGenerator::with_offset_and_stride(&charset, 1, 0, 2));
    let second = collect(PasswordGenerator::with_offset_and_stride(&charset, 1, 1, 2));
    assert_eq!(first, vec!["a", "c", "e"]);
    assert_eq!(second, vec!["b", "d"]);
}

#[test]
fn one_share_with_stride_one_is_the_whole_space() {
    let charset = ['a', 'b', 'c'];
    let whole = collect(PasswordGenerator::new(&charset, 2));
    let share = collect(PasswordGenerator::with_offset_and_stride(&charset, 2, 0, 1));
    assert_eq!(whole, share);
    assert_eq!(whole.len(), 9);
}

#[test]
fn shares_of_longer_candidates_leave_a_gap() {
    let charset = ['a', 'b', 'c'];
    let mut union = collect(PasswordGenerator::with_offset_and_stride(&charset, 2, 0, 2));
    union.extend(collect(PasswordGenerator::with_offset_and_stride(&charset, 2, 1, 2)));
    union.sort();
    assert_eq!(union, vec!["aa", "ac", "ba", "bb", "bc", "ca", "cb", "cc"]);
    assert!(!union.contains(&"ab".to_string()));
}

#[test]
fn repeated_symbols_are_spelled_as_given() {
    let charset = ['z', 'z'];
    let all = collect(PasswordGenerator::new(&charset, 2));
    assert_eq!(all, vec!["zz", "zz", "zz", "zz"]);
}
