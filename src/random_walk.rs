//! The integer side of the random walks: decoding a random draw into a step,
//! numbering the points a walk may pick, and following the supports of the
//! target shapes.
use vstd::prelude::*;
use crate::deps::{count_ones, popcount};

verus! {

/// How many times more often the shapes added by a walk are drawn than the
/// shapes it started from.
pub const NEW_SHAPE_MULTIPLIER: u32 = 4;

/// The step that a draw in `0..n * n * action_type_count` stands for: the
/// kind of step, then the two point numbers.
pub open spec fn choice_parts(choice: int, n: int, action_type_count: int) -> (int, int, int) {
    (
        choice % action_type_count,
        (choice / action_type_count) % n,
        (choice / (n * action_type_count)) % n,
    )
}

/// Splits a draw into the kind of step and two point numbers.
pub fn decode_choice(choice: u32, n: u32, action_type_count: u32) -> (r: (u32, u32, u32))
    requires
        n > 0,
        action_type_count > 0,
        n * action_type_count <= u32::MAX,
    ensures
        (r.0 as int, r.1 as int, r.2 as int) == choice_parts(
            choice as int,
            n as int,
            action_type_count as int,
        ),
        r.0 < action_type_count,
        r.1 < n,
        r.2 < n,
{
    assert(n * action_type_count > 0) by (nonlinear_arith)
        requires
            n > 0,
            action_type_count > 0,
    ;
    let i_action = choice % action_type_count;
    let p1 = (choice / action_type_count) % n;
    let p2 = (choice / (n * action_type_count)) % n;
    (i_action, p1, p2)
}

/// The number of point numbers with `i` shapes present: the fixed points,
/// then two intersections for each pair of a weighted first shape and
/// another shape.
pub open spec fn point_number_count(fixed: int, i0: int, i: int) -> int {
    fixed + ((i0 - 1) + NEW_SHAPE_MULTIPLIER * (i - (i0 - 1))) * (i - 1) * 2
}

/// The number of point numbers for each shape count from `i0` up to
/// `i_max`, the first included.
pub fn pt_index_counts(fixed: u32, i0: u32, i_max: u32) -> (r: Vec<u32>)
    requires
        1 <= i0 <= i_max,
        fixed + (i_max * NEW_SHAPE_MULTIPLIER) * i_max * 2 <= u32::MAX,
    ensures
        r@.len() == i_max - i0,
        forall|k: int|
            0 <= k < r@.len() ==> #[trigger] r@[k] == point_number_count(
                fixed as int,
                i0 as int,
                i0 + k,
            ),
{
    let mut r: Vec<u32> = Vec::new();
    let mut i = i0;
    while i < i_max
        invariant
            i0 <= i <= i_max,
            1 <= i0,
            fixed + (i_max * NEW_SHAPE_MULTIPLIER) * i_max * 2 <= u32::MAX,
            r@.len() == i - i0,
            forall|k: int|
                0 <= k < r@.len() ==> #[trigger] r@[k] == point_number_count(
                    fixed as int,
                    i0 as int,
                    i0 + k,
                ),
        decreases i_max - i,
    {
        proof {
            let v = (i0 - 1) + NEW_SHAPE_MULTIPLIER * (i - (i0 - 1));
            assert(i_max * NEW_SHAPE_MULTIPLIER <= (i_max * NEW_SHAPE_MULTIPLIER) * i_max * 2)
                by (nonlinear_arith)
                requires
                    i_max >= 1,
            ;
            assert(v <= i_max * NEW_SHAPE_MULTIPLIER);
            assert(v * (i - 1) <= (i_max * NEW_SHAPE_MULTIPLIER) * i_max) by (nonlinear_arith)
                requires
                    0 <= v <= i_max * NEW_SHAPE_MULTIPLIER,
                    0 <= i - 1 <= i_max,
            ;
        }
        let value = (i0 - 1) + NEW_SHAPE_MULTIPLIER * (i - (i0 - 1));
        r.push(fixed + value * (i - 1) * 2);
        i = i + 1;
    }
    r
}

/// Where a point number leads: a fixed point, or one of the two
/// intersections of two shapes.
#[derive(Debug, Clone, Copy, PartialEq, Eq, Structural)]
pub enum PointSource {
    Fixed(u32),
    Intersection { shape_1: u32, shape_2: u32, which: u32 },
}

/// The first shape of an intersection: the shapes a walk starts from are
/// drawn once each, the ones it added are drawn `NEW_SHAPE_MULTIPLIER`
/// times as often.
pub open spec fn first_shape(with_multiplier: int, i0: int, added: int) -> int {
    if with_multiplier < i0 - 1 {
        with_multiplier
    } else {
        i0 - 1 + (with_multiplier - (i0 - 1)) % (added - (i0 - 1))
    }
}

/// What a point number stands for when `added` shapes are present, the walk
/// having started from `i0` of them.
pub open spec fn point_source(point_index: int, fixed: int, i0: int, added: int) -> PointSource {
    if point_index < fixed {
        PointSource::Fixed(point_index as u32)
    } else {
        let intersection = point_index - fixed;
        let pair = intersection / 2;
        let offset = pair % (added - 1);
        let s1 = first_shape(pair / (added - 1), i0, added);
        let t = s1 + offset + 1;
        PointSource::Intersection {
            shape_1: s1 as u32,
            shape_2: (if t >= added {
                t - added
            } else {
                t
            }) as u32,
            which: (intersection % 2) as u32,
        }
    }
}

/// Decodes a point number. The two shapes of an intersection are distinct
/// shapes among those present.
pub fn decode_point_index(point_index: u32, fixed: u32, i0: u32, added: u32) -> (r: PointSource)
    requires
        1 <= i0 <= added,
        added >= 2,
    ensures
        r == point_source(point_index as int, fixed as int, i0 as int, added as int),
        r matches PointSource::Intersection { shape_1, shape_2, which } ==> shape_1 < added
            && shape_2 < added && shape_1 != shape_2 && which < 2,
{
    if point_index < fixed {
        return PointSource::Fixed(point_index);
    }
    let intersection = point_index - fixed;
    let pair = intersection / 2;
    let offset = pair % (added - 1);
    let with_multiplier = pair / (added - 1);
    let shape_1 = if with_multiplier < i0 - 1 {
        with_multiplier
    } else {
        i0 - 1 + (with_multiplier - (i0 - 1)) % (added - (i0 - 1))
    };
    proof {
        assert(with_multiplier < i0 - 1 ==> shape_1 < added);
    }
    let t = shape_1 as u64 + offset as u64 + 1;
    let shape_2 = if t >= added as u64 {
        (t - added as u64) as u32
    } else {
        t as u32
    };
    PointSource::Intersection { shape_1, shape_2, which: intersection % 2 }
}

/// How far the supports of a target shape have come: a target line needs
/// two points that two shapes pass through; a target circle needs such a
/// point and a line through its center.
#[derive(Debug, Clone, Copy, PartialEq, Eq, Structural)]
pub enum FSupportState {
    NeedBoth,
    /// One support found, at the given position (`usize::MAX` where no
    /// position is recorded).
    NeedOne(usize),
    AllFound,
}

/// The state after one more support is found at position `i`.
pub open spec fn advanced(state: FSupportState, i: usize) -> FSupportState {
    match state {
        FSupportState::NeedBoth => FSupportState::NeedOne(i),
        _ => FSupportState::AllFound,
    }
}

impl FSupportState {
    /// Records one more support found at position `i`.
    pub fn advance(self, i: usize) -> (r: FSupportState)
        ensures
            r == advanced(self, i),
    {
        match self {
            FSupportState::NeedBoth => FSupportState::NeedOne(i),
            _ => FSupportState::AllFound,
        }
    }

    pub fn is_all_found(&self) -> (r: bool)
        ensures
            r == (*self == FSupportState::AllFound),
    {
        match self {
            FSupportState::AllFound => true,
            _ => false,
        }
    }
}

/// The shape positions a walk fills: it starts after its `initial` shapes,
/// of which `given` were given, and adds shapes up to the budget.
pub open spec fn walk_end(initial: int, given: int, action_count: int) -> int {
    initial + action_count - (initial - given)
}

/// The position after the last shape a walk may add.
pub fn walk_limit(initial: u32, given: u32, action_count: u32) -> (r: u32)
    requires
        given <= initial,
        given + action_count <= u32::MAX,
    ensures
        r == walk_end(initial as int, given as int, action_count as int),
{
    given + action_count
}

/// A walk at position `i` of `i_max` stops drawing when fewer places are
/// left than target shapes still to add (`f_mask`); when it places target
/// shapes through their supports, also when exactly that many are left.
pub fn walk_must_stop(i: u32, i_max: u32, f_mask: u32, track_supports: bool) -> (r: bool)
    requires
        i <= i_max,
    ensures
        r == ((i_max - i) < popcount(f_mask as u64) || (track_supports && (i_max - i)
            == popcount(f_mask as u64))),
{
    let to_find = count_ones(f_mask as u64);
    let left = (i_max - i) as u64;
    left < to_find || (track_supports && left == to_find)
}

/// Bit `i` of `mask` is set.
pub open spec fn mask_has(mask: u32, i: int) -> bool {
    0 <= i < 32 && mask & (1u32 << (i as u32)) != 0
}

/// The first target shape still to add, by `f_mask`, whose supports are all
/// found (both states `AllFound`).
pub fn get_first_found_shape_index_with_supports(
    f_mask: u32,
    states_1: &Vec<FSupportState>,
    states_2: &Vec<FSupportState>,
) -> (r: Option<u32>)
    requires
        states_1@.len() == states_2@.len(),
        states_1@.len() <= 32,
    ensures
        r matches Some(i) ==> {
            &&& i < states_1@.len()
            &&& mask_has(f_mask, i as int)
            &&& states_1@[i as int] == FSupportState::AllFound
            &&& states_2@[i as int] == FSupportState::AllFound
            &&& forall|k: int|
                0 <= k < i ==> !(mask_has(f_mask, k) && #[trigger] states_1@[k]
                    == FSupportState::AllFound && states_2@[k] == FSupportState::AllFound)
        },
        r is None ==> forall|k: int|
            0 <= k < states_1@.len() ==> !(mask_has(f_mask, k) && #[trigger] states_1@[k]
                == FSupportState::AllFound && states_2@[k] == FSupportState::AllFound),
{
    let mut i: usize = 0;
    while i < states_1.len()
        invariant
            i <= states_1@.len() <= 32,
            states_1@.len() == states_2@.len(),
            forall|k: int|
                0 <= k < i ==> !(mask_has(f_mask, k) && #[trigger] states_1@[k]
                    == FSupportState::AllFound && states_2@[k] == FSupportState::AllFound),
        decreases states_1.len() - i,
    {
        if f_mask & (1u32 << (i as u32)) != 0 && states_1[i].is_all_found()
            && states_2[i].is_all_found() {
            return Some(i as u32);
        }
        i = i + 1;
    }
    None
}

} // verus!
