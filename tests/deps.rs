use ruler_compass::deps::{count_ones, low_count, DepsTable};

fn word(bits: &[u32]) -> u64 {
    let mut d = 0u64;
    for b in bits {
        d |= 1u64 << b;
    }
    d
}

#[test]
fn low_members_are_counted() {
    let t = DepsTable::new();
    assert_eq!(t.get_deps_count(0), 0);
    assert_eq!(t.get_deps_count(word(&[0, 5, 39])), 3);
    assert_eq!(low_count(u64::MAX), 40);
    assert_eq!(count_ones(u64::MAX), 64);
    assert_eq!(count_ones(0b1011), 3);
}

#[test]
fn combine_low_sets_is_bitwise_or() {
    let mut t = DepsTable::new();
    let a = word(&[1, 2]);
    let b = word(&[2, 3]);
    assert_eq!(t.combine_deps(a, b, None), word(&[1, 2, 3]));
    assert_eq!(t.combine_deps(a, b, Some(7)), word(&[1, 2, 3, 7]));
    assert_eq!(t.len(), 1);
    assert_eq!(t.get_combined_deps_count(a, b), 3);
}

#[test]
fn combine_with_high_index_interns_a_list() {
    let mut t = DepsTable::new();
    let a = word(&[0, 1]);
    let d = t.combine_deps(a, 0, Some(45));
    assert_eq!(d & 0xff_ffff_ffff, a);
    assert_eq!(d >> 40, 1);
    assert_eq!(t.len(), 2);
    assert_eq!(t.get_deps_count(d), 3);
    // The same set gives the same word.
    let again = t.combine_deps(0, a, Some(45));
    assert_eq!(again, d);
    assert_eq!(t.len(), 2);
    let e = t.combine_deps(d, 0, Some(41));
    assert_eq!(t.get_deps_count(e), 4);
    assert_eq!(t.get_combined_deps_count(d, e), 4);
    let f = t.combine_deps(0, 0, Some(50));
    assert_eq!(t.get_combined_deps_count(e, f), 5);
    let g = t.combine_deps(e, f, None);
    assert_eq!(t.get_deps_count(g), 5);
}

#[test]
fn combine_identity_and_idempotence() {
    let mut t = DepsTable::new();
    let d = t.combine_deps(word(&[3]), 0, Some(60));
    assert_eq!(t.combine_deps(d, 0, None), d);
    assert_eq!(t.combine_deps(d, d, None), d);
    let low = word(&[4, 9]);
    assert_eq!(t.combine_deps(low, 0, None), low);
    assert_eq!(t.combine_deps(low, low, None), low);
}

#[test]
fn combined_count_matches_count_of_combination() {
    let mut t = DepsTable::new();
    let d1 = t.combine_deps(word(&[1]), 0, Some(42));
    let d2 = t.combine_deps(word(&[2]), 0, Some(43));
    let expected = t.get_combined_deps_count(d1, d2);
    let u = t.combine_deps(d1, d2, None);
    assert_eq!(t.get_deps_count(u), expected);
    assert_eq!(expected, 4);
}

#[test]
fn combine_is_order_independent() {
    let mut t = DepsTable::new();
    let d1 = t.combine_deps(word(&[1]), 0, Some(42));
    let d2 = t.combine_deps(word(&[2]), 0, Some(47));
    let u = t.combine_deps(d1, d2, None);
    let v = t.combine_deps(d2, d1, None);
    assert_eq!(u, v);
}

#[test]
fn requires_deps_checks_subsets() {
    let mut t = DepsTable::new();
    let big = t.combine_deps(word(&[1, 2]), 0, Some(44));
    let small = t.combine_deps(word(&[2]), 0, Some(44));
    let other = t.combine_deps(word(&[5]), 0, None);
    assert!(t.requires_deps(&[0, big, 0], small));
    assert!(!t.requires_deps(&[0, small, 0], big));
    assert!(t.requires_deps(&[other, 0, big], word(&[1])));
    assert!(!t.requires_deps(&[other, 0, 0], word(&[1])));
}

#[test]
fn interning_returns_existing_id() {
    let mut t = DepsTable::new();
    let i = t.get_index_of_deps_combination(vec![1, 5]);
    let j = t.get_index_of_deps_combination(vec![2, 4]);
    let k = t.get_index_of_deps_combination(vec![1, 5]);
    assert_eq!(i, 1);
    assert_eq!(j, 2);
    assert_eq!(k, 1);
    assert_eq!(t.get_index_of_deps_combination(vec![]), 0);
}

#[test]
fn compress_and_decompress_round_trip() {
    let mut t = DepsTable::new();
    let all = t.combine_deps(word(&[2, 7, 9]), 0, Some(41));
    let all = t.combine_deps(all, 0, Some(48));
    let d = t.combine_deps(word(&[7]), 0, Some(48));
    let bits = t.compress(d, all);
    // Members of `all` in order: 2, 7, 9, 41, 48.
    assert_eq!(bits, 0b10010);
    let back = t.decompress(bits, all);
    assert_eq!(back, d);
    assert_eq!(t.get_deps_count(back), 2);
}

#[test]
fn three_way_count() {
    let mut t = DepsTable::new();
    let a = t.combine_deps(word(&[1]), 0, Some(41));
    let b = t.combine_deps(word(&[1, 2]), 0, Some(42));
    let c = t.combine_deps(word(&[3]), 0, Some(41));
    assert_eq!(t.get_combined_three_deps_count(a, b, c), 5);
    assert_eq!(t.get_combined_three_deps_count(a, a, a), 2);
    assert_eq!(t.get_combined_three_deps_count(0, word(&[4]), 0), 1);
}

#[test]
fn count_with_one_more_index() {
    let mut t = DepsTable::new();
    let d = t.combine_deps(word(&[1, 2]), 0, Some(45));
    assert_eq!(t.get_deps_combined_with_index_count(d, 1), 3);
    assert_eq!(t.get_deps_combined_with_index_count(d, 7), 4);
    assert_eq!(t.get_deps_combined_with_index_count(d, 45), 3);
    assert_eq!(t.get_deps_combined_with_index_count(d, 46), 4);
    assert_eq!(t.get_deps_combined_with_index_count(word(&[3]), 50), 2);
}

#[test]
fn combining_a_stored_union_keeps_the_table() {
    let mut t = DepsTable::new();
    let d = t.combine_deps(word(&[2]), 0, Some(44));
    let n = t.len();
    assert_eq!(t.combine_deps(d, d, None), d);
    assert_eq!(t.combine_deps(d, 0, None), d);
    assert_eq!(t.combine_deps(0, d, Some(44)), d);
    assert_eq!(t.len(), n);
}
