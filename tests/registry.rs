use ruler_compass::problems::{ActionType, PointAndLineActionType, ThreePointActionType, TwoPointActionType};
use ruler_compass::registry::{Registry, GIVEN};

const LINE: ActionType = ActionType::TwoPointActionType(TwoPointActionType::Line);

#[test]
fn given_points_have_empty_dependencies() {
    let mut reg = Registry::new(3);
    assert_eq!(reg.register_point_origin([GIVEN, GIVEN], None), Some(0));
    assert_eq!(reg.register_point_origin([GIVEN, GIVEN], None), Some(1));
    assert_eq!(reg.point_count(), 2);
    assert_eq!(reg.point_origin(0).deps, 0);
    assert_eq!(reg.point_origin(1).next, -1);
}

#[test]
fn steps_add_their_own_index() {
    let mut reg = Registry::new(3);
    reg.register_point_origin([GIVEN, GIVEN], None);
    reg.register_point_origin([GIVEN, GIVEN], None);
    let (deps, mask) = reg.process(LINE, 0, 1, -1, 0, Some(0b10));
    assert_eq!(deps, 1);
    assert_eq!(mask, 0b10);
    assert_eq!(reg.register_shape_origin(deps, mask, None), Some(0));
    let (deps2, _) = reg.process(LINE, 0, 1, -1, 1, None);
    assert_eq!(reg.register_shape_origin(deps2, 0, None), Some(1));
    // A point on both shapes depends on both steps.
    assert_eq!(reg.register_point_origin([0, 1], None), Some(2));
    let p = reg.point_origin(2);
    assert_eq!(p.deps, 0b11);
    assert_eq!(p.found_shape_mask, 0b10);
    assert_eq!(reg.deps_table().get_deps_count(p.deps), 2);
}

#[test]
fn records_over_budget_are_dropped() {
    let mut reg = Registry::new(1);
    reg.register_point_origin([GIVEN, GIVEN], None);
    reg.register_point_origin([GIVEN, GIVEN], None);
    let (d0, _) = reg.process(LINE, 0, 1, -1, 0, None);
    reg.register_shape_origin(d0, 0, None);
    let (d1, _) = reg.process(LINE, 0, 1, -1, 1, None);
    reg.register_shape_origin(d1, 0, None);
    assert_eq!(reg.register_point_origin([0, 1], None), None);
    assert_eq!(reg.point_count(), 2);
    let both = reg.combine_deps(d0, d1, None);
    assert_eq!(reg.register_shape_origin(both, 0, None), None);
    for i in 0..reg.shape_count() {
        let d = reg.shape_origin(i).deps;
        assert!(reg.deps_table().get_deps_count(d) <= reg.action_count() as u64);
    }
}

#[test]
fn repeated_entities_are_chained() {
    let mut reg = Registry::new(4);
    reg.register_shape_origin(0b01, 0, None);
    // No better than the first record: dropped.
    assert_eq!(reg.register_shape_origin(0b11, 0, Some(0)), None);
    // A different set: chained behind the first.
    assert_eq!(reg.register_shape_origin(0b10, 0, Some(0)), Some(1));
    assert_eq!(reg.shape_origin(0).next, 1);
    assert_eq!(reg.chain_deps(0, false), vec![0b01, 0b10]);
}

#[test]
fn action_inputs_by_kind() {
    let mut reg = Registry::new(5);
    for _ in 0..3 {
        reg.register_point_origin([GIVEN, GIVEN], None);
    }
    reg.register_shape_origin(0b100, 0, None);
    let perp = ActionType::PointAndLineActionType(PointAndLineActionType::Perp);
    assert_eq!(reg.get_action_deps(perp, 1, -1, 0), [0, 0b100, 0]);
    let circle = ActionType::ThreePointActionType(ThreePointActionType::CircleABC);
    assert_eq!(reg.get_action_deps(circle, 0, 1, 2), [0, 0, 0]);
    let (deps, _) = reg.process(perp, 1, -1, 0, 1, None);
    assert_eq!(deps, 0b110);
}

#[test]
fn multimatch_picks_smallest_coherent_union() {
    let mut reg = Registry::new(2);
    // Target shape 0 reached by step 0 or by steps 1 and 2; target shape 2
    // reached by step 0 too.
    reg.register_shape_origin(0b001, 0, None);
    reg.register_shape_origin(0b110, 0, Some(0));
    reg.register_shape_origin(0b001, 0, None);
    let found = reg.multimatch_solution(&vec![], &vec![0, 2]);
    assert_eq!(found, Some(0b001));
    let mut tight = Registry::new(1);
    tight.register_shape_origin(0b01, 0, None);
    tight.register_shape_origin(0b10, 0, None);
    assert_eq!(tight.multimatch_solution(&vec![], &vec![0, 1]), None);
}

#[test]
fn step_results_carry_the_inputs_masks() {
    let mut reg = Registry::new(4);
    reg.register_point_origin([GIVEN, GIVEN], None);
    reg.register_point_origin([GIVEN, GIVEN], None);
    reg.register_shape_origin(0b1, 0b01, None);
    reg.register_shape_origin(0b10, 0b10, None);
    assert_eq!(reg.register_point_origin([0, 1], None), Some(2));
    assert_eq!(reg.point_origin(2).found_shape_mask, 0b11);
    let (_, mask) = reg.process(LINE, 0, 2, -1, 2, Some(0b100));
    assert_eq!(mask, 0b111);
    let (_, mask) = reg.process(LINE, 0, 1, -1, 2, None);
    assert_eq!(mask, 0);
}
