use ruler_compass::multimatch::find_shortest_deps_union;
use ruler_compass::random_walk::{
    decode_choice, decode_point_index, get_first_found_shape_index_with_supports,
    pt_index_counts, walk_limit, walk_must_stop, FSupportState, PointSource,
};

#[test]
fn shortest_union_picks_smallest() {
    let lists = vec![vec![0b0011u64, 0b0100], vec![0b1100u64, 0b0001]];
    // Unions: 0b1111, 0b0011, 0b1100, 0b0101: the first smallest is 0b0011.
    assert_eq!(find_shortest_deps_union(&lists, 0, 0), 0b0011);
    assert_eq!(find_shortest_deps_union(&lists, 0b10000, 0), 0b10011);
    assert_eq!(find_shortest_deps_union(&lists, 0b111, 2), 0b111);
}

#[test]
fn shortest_union_with_empty_list_is_zero() {
    let lists = vec![vec![0b1u64], vec![]];
    assert_eq!(find_shortest_deps_union(&lists, 0b100, 0), 0);
}

#[test]
fn draw_splits_into_kind_and_points() {
    // 3 kinds, 5 points: 47 = 2 + 3 * (0 + 5 * 3).
    assert_eq!(decode_choice(47, 5, 3), (2, 0, 3));
    assert_eq!(decode_choice(0, 5, 3), (0, 0, 0));
}

#[test]
fn point_number_counts() {
    // fixed 2, shapes from 4 to 6: value = 3 + 4 * (i - 3), count = 2 + value * (i - 1) * 2.
    assert_eq!(pt_index_counts(2, 4, 6), vec![2 + 7 * 3 * 2, 2 + 11 * 4 * 2]);
}

#[test]
fn point_numbers_decode_to_distinct_shapes() {
    assert_eq!(decode_point_index(1, 3, 2, 4), PointSource::Fixed(1));
    // intersection 7: pair 3, offset 0, weighted first shape 1 -> 1 + 0 % 3.
    assert_eq!(
        decode_point_index(10, 3, 2, 4),
        PointSource::Intersection { shape_1: 1, shape_2: 2, which: 1 }
    );
    assert_eq!(
        decode_point_index(3 + 2 * 5, 3, 2, 4),
        PointSource::Intersection { shape_1: 1, shape_2: 0, which: 0 }
    );
}

#[test]
fn supports_advance_and_first_complete_target() {
    assert_eq!(FSupportState::NeedBoth.advance(4), FSupportState::NeedOne(4));
    assert_eq!(FSupportState::NeedOne(4).advance(2), FSupportState::AllFound);
    assert_eq!(FSupportState::AllFound.advance(1), FSupportState::AllFound);
    let s1 = vec![FSupportState::AllFound, FSupportState::AllFound, FSupportState::AllFound];
    let s2 = vec![FSupportState::NeedBoth, FSupportState::AllFound, FSupportState::AllFound];
    assert_eq!(get_first_found_shape_index_with_supports(0b111, &s1, &s2), Some(1));
    assert_eq!(get_first_found_shape_index_with_supports(0b100, &s1, &s2), Some(2));
    assert_eq!(get_first_found_shape_index_with_supports(0b001, &s1, &s2), None);
}

#[test]
fn walks_stop_when_targets_no_longer_fit() {
    assert_eq!(walk_limit(5, 3, 6), 9);
    // Two places left, two targets missing: stop only when supports are tracked.
    assert!(!walk_must_stop(7, 9, 0b101, false));
    assert!(walk_must_stop(7, 9, 0b101, true));
    assert!(walk_must_stop(8, 9, 0b101, false));
    assert!(!walk_must_stop(5, 9, 0, true));
}
