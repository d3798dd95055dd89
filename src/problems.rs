//! The kinds of construction step and the settings of a problem.
use vstd::prelude::*;

verus! {

/// Steps from two points.
#[derive(Debug, Clone, Copy, PartialEq, Eq, Structural, PartialOrd, Ord, Hash)]
pub enum TwoPointActionType {
    Line,
    Circle12,
    Circle21,
    MidPerp,
    Last,
}

/// Steps from a point and a line.
#[derive(Debug, Clone, Copy, PartialEq, Eq, Structural, PartialOrd, Ord, Hash)]
pub enum PointAndLineActionType {
    Perp,
    Par,
    Last,
}

/// Steps from three points.
#[derive(Debug, Clone, Copy, PartialEq, Eq, Structural, PartialOrd, Ord, Hash)]
pub enum ThreePointActionType {
    CircleCAB,
    CircleACB,
    CircleABC,
    BisectorCAB,
    BisectorACB,
    BisectorABC,
    Last,
}

/// Steps from two points and a line. "Pos" takes the line's direction as it
/// is, "Neg" takes it reversed.
#[derive(Debug, Clone, Copy, PartialEq, Eq, Structural, PartialOrd, Ord, Hash)]
pub enum TwoPointAndLineActionType {
    BisectorPosCAL,
    BisectorPosACL,
    BisectorNegCAL,
    BisectorNegACL,
    Last,
}

/// A construction step.
#[derive(Debug, Clone, Copy, PartialEq, Eq, Structural, PartialOrd, Ord, Hash)]
pub enum ActionType {
    TwoPointActionType(TwoPointActionType),
    PointAndLineActionType(PointAndLineActionType),
    ThreePointActionType(ThreePointActionType),
    TwoPointAndLineActionType(TwoPointAndLineActionType),
}

/// The position of a step within its group.
pub open spec fn index_in_group(t: ActionType) -> nat {
    match t {
        ActionType::TwoPointActionType(v) => match v {
            TwoPointActionType::Line => 0,
            TwoPointActionType::Circle12 => 1,
            TwoPointActionType::Circle21 => 2,
            TwoPointActionType::MidPerp => 3,
            TwoPointActionType::Last => 4,
        },
        ActionType::PointAndLineActionType(v) => match v {
            PointAndLineActionType::Perp => 0,
            PointAndLineActionType::Par => 1,
            PointAndLineActionType::Last => 2,
        },
        ActionType::ThreePointActionType(v) => match v {
            ThreePointActionType::CircleCAB => 0,
            ThreePointActionType::CircleACB => 1,
            ThreePointActionType::CircleABC => 2,
            ThreePointActionType::BisectorCAB => 3,
            ThreePointActionType::BisectorACB => 4,
            ThreePointActionType::BisectorABC => 5,
            ThreePointActionType::Last => 6,
        },
        ActionType::TwoPointAndLineActionType(v) => match v {
            TwoPointAndLineActionType::BisectorPosCAL => 0,
            TwoPointAndLineActionType::BisectorPosACL => 1,
            TwoPointAndLineActionType::BisectorNegCAL => 2,
            TwoPointAndLineActionType::BisectorNegACL => 3,
            TwoPointAndLineActionType::Last => 4,
        },
    }
}

/// The position of a step's group.
pub open spec fn group_of(t: ActionType) -> nat {
    match t {
        ActionType::TwoPointActionType(_) => 0,
        ActionType::PointAndLineActionType(_) => 1,
        ActionType::ThreePointActionType(_) => 2,
        ActionType::TwoPointAndLineActionType(_) => 3,
    }
}

/// The rank of a step in the order of the kinds: by group, then by position
/// within the group.
pub open spec fn type_rank(t: ActionType) -> nat {
    group_of(t) * 8 + index_in_group(t)
}

impl ActionType {
    /// The position of the step within its group.
    pub fn get_action_index(&self) -> (r: usize)
        ensures
            r == index_in_group(*self),
    {
        match self {
            ActionType::TwoPointActionType(v) => match v {
                TwoPointActionType::Line => 0,
                TwoPointActionType::Circle12 => 1,
                TwoPointActionType::Circle21 => 2,
                TwoPointActionType::MidPerp => 3,
                TwoPointActionType::Last => 4,
            },
            ActionType::PointAndLineActionType(v) => match v {
                PointAndLineActionType::Perp => 0,
                PointAndLineActionType::Par => 1,
                PointAndLineActionType::Last => 2,
            },
            ActionType::ThreePointActionType(v) => match v {
                ThreePointActionType::CircleCAB => 0,
                ThreePointActionType::CircleACB => 1,
                ThreePointActionType::CircleABC => 2,
                ThreePointActionType::BisectorCAB => 3,
                ThreePointActionType::BisectorACB => 4,
                ThreePointActionType::BisectorABC => 5,
                ThreePointActionType::Last => 6,
            },
            ActionType::TwoPointAndLineActionType(v) => match v {
                TwoPointAndLineActionType::BisectorPosCAL => 0,
                TwoPointAndLineActionType::BisectorPosACL => 1,
                TwoPointAndLineActionType::BisectorNegCAL => 2,
                TwoPointAndLineActionType::BisectorNegACL => 3,
                TwoPointAndLineActionType::Last => 4,
            },
        }
    }

    /// The rank of the step in the order of the kinds.
    pub fn rank(&self) -> (r: u32)
        ensures
            r == type_rank(*self),
    {
        let group: u32 = match self {
            ActionType::TwoPointActionType(_) => 0,
            ActionType::PointAndLineActionType(_) => 1,
            ActionType::ThreePointActionType(_) => 2,
            ActionType::TwoPointAndLineActionType(_) => 3,
        };
        group * 8 + self.get_action_index() as u32
    }
}

/// The settings of a problem over some kind of element: what is given, what
/// is to be found, the budget of steps and the kinds of step allowed.
pub struct ProblemDefinition<E> {
    pub given_elements: Vec<E>,
    pub elements_to_find: Vec<E>,
    pub action_count: u32,
    pub action_types: Vec<ActionType>,
    pub random_walk_at_n_actions: Option<u32>,
    pub prioritize_low_action_count_shapes: bool,
    pub multimatch: bool,
    pub find_all_solutions: bool,
    pub track_supports_in_rw: bool,
}

impl<E> ProblemDefinition<E> {
    /// Some allowed step starts from a point and a line.
    pub fn has_point_and_line_actions(&self) -> (r: bool)
        ensures
            r == exists|i: int|
                0 <= i < self.action_types@.len() && group_of(#[trigger] self.action_types@[i])
                    == 1,
    {
        self.has_group(1)
    }

    /// Some allowed step starts from three points.
    pub fn has_three_point_actions(&self) -> (r: bool)
        ensures
            r == exists|i: int|
                0 <= i < self.action_types@.len() && group_of(#[trigger] self.action_types@[i])
                    == 2,
    {
        self.has_group(2)
    }

    /// Some allowed step starts from two points and a line.
    pub fn has_two_point_and_line_actions(&self) -> (r: bool)
        ensures
            r == exists|i: int|
                0 <= i < self.action_types@.len() && group_of(#[trigger] self.action_types@[i])
                    == 3,
    {
        self.has_group(3)
    }

    fn has_group(&self, group: u32) -> (r: bool)
        ensures
            r == exists|i: int|
                0 <= i < self.action_types@.len() && group_of(#[trigger] self.action_types@[i])
                    == group,
    {
        let mut i: usize = 0;
        while i < self.action_types.len()
            invariant
                i <= self.action_types@.len(),
                forall|k: int| 0 <= k < i ==> group_of(#[trigger] self.action_types@[k]) != group,
            decreases self.action_types.len() - i,
        {
            let g: u32 = match self.action_types[i] {
                ActionType::TwoPointActionType(_) => 0,
                ActionType::PointAndLineActionType(_) => 1,
                ActionType::ThreePointActionType(_) => 2,
                ActionType::TwoPointAndLineActionType(_) => 3,
            };
            if g == group {
                return true;
            }
            i = i + 1;
        }
        false
    }
}

} // verus!
