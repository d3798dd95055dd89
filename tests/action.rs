use ruler_compass::action::{
    compute_priority, decide_popped, defer_to_random_walk, Action, ActionQueue, PopDecision,
    PriorityInputs,
};
use ruler_compass::problems::{
    ActionType, PointAndLineActionType, ProblemDefinition, ThreePointActionType,
    TwoPointActionType, TwoPointAndLineActionType,
};

fn action(priority: i64, p1: i32, p2: i32, t: ActionType) -> Action<u32> {
    Action {
        priority,
        deps_count: 0,
        shape: 0,
        action_type: t,
        point_index_1: p1,
        point_index_2: p2,
        extra_index: -1,
    }
}

const LINE: ActionType = ActionType::TwoPointActionType(TwoPointActionType::Line);
const CIRCLE12: ActionType = ActionType::TwoPointActionType(TwoPointActionType::Circle12);

#[test]
fn queue_pops_highest_priority_first() {
    let mut q: ActionQueue<u32> = ActionQueue::new();
    q.push(action(5, 0, 1, LINE));
    q.push(action(9, 0, 1, LINE));
    q.push(action(1, 0, 1, LINE));
    q.push(action(7, 0, 1, LINE));
    assert_eq!(q.len(), 4);
    assert_eq!(q.peek_priority(), Some(9));
    let order: Vec<i64> = (0..4).map(|_| q.pop().unwrap().priority).collect();
    assert_eq!(order, vec![9, 7, 5, 1]);
    assert!(q.pop().is_none());
    assert!(q.is_empty());
}

#[test]
fn queue_breaks_ties_by_lower_indices_then_kind() {
    let mut q: ActionQueue<u32> = ActionQueue::new();
    q.push(action(3, 2, 5, LINE));
    q.push(action(3, 1, 6, CIRCLE12));
    q.push(action(3, 1, 6, LINE));
    q.push(action(3, 1, 4, LINE));
    let a = q.pop().unwrap();
    assert_eq!((a.point_index_1, a.point_index_2), (1, 4));
    let b = q.pop().unwrap();
    assert_eq!((b.point_index_1, b.point_index_2, b.action_type), (1, 6, LINE));
    let c = q.pop().unwrap();
    assert_eq!(c.action_type, CIRCLE12);
    let d = q.pop().unwrap();
    assert_eq!(d.point_index_1, 2);
}

#[test]
fn queue_keep_top_drops_the_rest() {
    let mut q: ActionQueue<u32> = ActionQueue::new();
    for p in 0..10 {
        q.push(action(p, 0, 1, LINE));
    }
    q.keep_top(3);
    assert_eq!(q.len(), 3);
    assert_eq!(q.pop().unwrap().priority, 9);
    assert_eq!(q.pop().unwrap().priority, 8);
    assert_eq!(q.pop().unwrap().priority, 7);
}

#[test]
fn precedes_compares_in_exploration_order() {
    let a = action(2, 0, 1, LINE);
    let b = action(3, 0, 1, LINE);
    assert!(a.precedes(&b));
    assert!(!b.precedes(&a));
    let c = action(2, 1, 1, LINE);
    assert!(c.precedes(&a));
    assert!(!a.precedes(&a));
}

#[test]
fn point_and_shape_indices_by_kind() {
    let mut a = action(0, 3, 4, LINE);
    a.extra_index = 9;
    assert_eq!(a.get_point_indices(), vec![3, 4]);
    assert!(a.get_shape_indices().is_empty());
    a.action_type = ActionType::PointAndLineActionType(PointAndLineActionType::Par);
    assert_eq!(a.get_point_indices(), vec![3]);
    assert_eq!(a.get_shape_indices(), vec![9]);
    a.action_type = ActionType::ThreePointActionType(ThreePointActionType::BisectorABC);
    assert_eq!(a.get_point_indices(), vec![3, 4, 9]);
    assert_eq!(a.get_action_index(), 5);
    a.action_type =
        ActionType::TwoPointAndLineActionType(TwoPointAndLineActionType::BisectorNegCAL);
    assert_eq!(a.get_point_indices(), vec![3, 4]);
    assert_eq!(a.get_shape_indices(), vec![9]);
    assert_eq!(a.get_action_index(), 2);
}

fn inputs(t: ActionType) -> PriorityInputs {
    PriorityInputs {
        action_type: t,
        deps_count: 1,
        action_count: 6,
        random_walk_at_n_actions: None,
        target_shape_count: 2,
        found_shape_mask: 0b1,
        prioritize_low_action_count_shapes: true,
        find_all_solutions: false,
        found_parent_points: 1,
        parent_line_found: true,
        parent_points_on_targets: 2,
        parent_points_on_found_shapes: 1,
        targets_on_parent_line: 1,
        shape_is_target: true,
        shape_is_found: true,
        target_points_on_shape: 3,
        found_points_on_shape: 1,
    }
}

#[test]
fn priority_of_two_point_step() {
    // 2 * (6 - 1) + 50 * 2 + 1 + 5 * 2 + 20 + 5 * 3
    assert_eq!(compute_priority(&inputs(LINE)), 156);
    let mut all = inputs(LINE);
    all.find_all_solutions = true;
    // plus 5 * 1 + 20 + 5 * 1
    assert_eq!(compute_priority(&all), 186);
}

#[test]
fn priority_of_point_and_line_step() {
    let t = ActionType::PointAndLineActionType(PointAndLineActionType::Perp);
    // 10 + 100 + 1 + 1 + 10 + 5 + 20 + 15
    assert_eq!(compute_priority(&inputs(t)), 162);
}

#[test]
fn priority_without_low_count_bonus() {
    let mut p = inputs(LINE);
    p.prioritize_low_action_count_shapes = false;
    assert_eq!(compute_priority(&p), 56);
    p.deps_count = 3;
    p.prioritize_low_action_count_shapes = true;
    // 2 * 3 + 1 + 10 + 20 + 15
    assert_eq!(compute_priority(&p), 52);
}

#[test]
fn priority_is_negative_when_budget_is_exceeded() {
    let mut p = inputs(LINE);
    p.deps_count = 5;
    assert_eq!(compute_priority(&p), -1);
    let mut q = inputs(LINE);
    q.found_shape_mask = 0;
    q.deps_count = 4;
    assert_eq!(compute_priority(&q), -1);
    let mut r = inputs(LINE);
    r.random_walk_at_n_actions = Some(2);
    assert_eq!(compute_priority(&r), -1);
    let mut s = inputs(ActionType::PointAndLineActionType(PointAndLineActionType::Par));
    s.random_walk_at_n_actions = Some(2);
    assert!(compute_priority(&s) > 0);
}

fn problem(types: Vec<ActionType>) -> ProblemDefinition<u8> {
    ProblemDefinition {
        given_elements: vec![],
        elements_to_find: vec![],
        action_count: 3,
        action_types: types,
        random_walk_at_n_actions: None,
        prioritize_low_action_count_shapes: true,
        multimatch: false,
        find_all_solutions: false,
        track_supports_in_rw: false,
    }
}

#[test]
fn problem_reports_groups_of_allowed_steps() {
    let basic = problem(vec![LINE, CIRCLE12]);
    assert!(!basic.has_point_and_line_actions());
    assert!(!basic.has_three_point_actions());
    assert!(!basic.has_two_point_and_line_actions());
    let full = problem(vec![
        LINE,
        ActionType::PointAndLineActionType(PointAndLineActionType::Perp),
        ActionType::ThreePointActionType(ThreePointActionType::CircleCAB),
        ActionType::TwoPointAndLineActionType(TwoPointAndLineActionType::BisectorPosACL),
    ]);
    assert!(full.has_point_and_line_actions());
    assert!(full.has_three_point_actions());
    assert!(full.has_two_point_and_line_actions());
    assert_eq!(LINE.rank(), 0);
    assert_eq!(
        ActionType::ThreePointActionType(ThreePointActionType::CircleABC).rank(),
        18
    );
}

#[test]
fn popped_steps_are_decided_by_their_new_score() {
    assert_eq!(decide_popped(10, -1), PopDecision::Skip);
    assert_eq!(decide_popped(10, 12), PopDecision::Requeue(12));
    assert_eq!(decide_popped(10, 10), PopDecision::Apply);
    assert!(defer_to_random_walk(3, Some(5)));
    assert!(!defer_to_random_walk(2, Some(5)));
    assert!(!defer_to_random_walk(3, None));
}

#[test]
fn budget_leaves_room_for_missing_targets() {
    // 3 steps needed, 2 targets with one found: 3 + 1 <= 4.
    assert!(ruler_compass::action::within_budget(3, 0b01, 2, 4));
    assert!(!ruler_compass::action::within_budget(3, 0b00, 2, 4));
    assert!(ruler_compass::action::within_budget(0, 0, 0, 0));
}
