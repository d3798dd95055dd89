//! The records of how each point and shape was obtained: its dependency set,
//! the target shapes found along its lineage, and, where the same entity was
//! obtained again in another way, a link to the next record of it.
use vstd::prelude::*;
use crate::deps::{DepsTable, index_members};
use crate::problems::{ActionType, group_of};
use crate::multimatch::{
    choice_members, lemma_choice_count, lemma_choice_members_grown, packed_lists, some_list_empty,
    union_of_choice, valid_choice, views_of,
};
use crate::deps::{count_ones, expanded, popcount};

verus! {

/// The parent index of a given element.
pub const GIVEN: i32 = -1;

/// How a point or a shape was obtained. For a point, `parents` are the two
/// shapes it is an intersection of (`GIVEN` for a given point); a shape's
/// record has `GIVEN` there. `next` is the next record of the same entity,
/// `-1` at the end of the chain.
#[derive(Clone, Copy, Debug)]
pub struct Origin {
    pub deps: u64,
    pub parents: [i32; 2],
    pub found_shape_mask: u32,
    pub next: i32,
}

/// The records are well formed against `table`: each dependency set is a
/// word of the table within the budget, and each link leads forward, below
/// `bound`.
pub open spec fn origins_ok(table: DepsTable, v: Seq<Origin>, action_count: u32, bound: int) -> bool {
    forall|i: int|
        0 <= i < v.len() ==> {
            &&& table.valid(#[trigger] v[i].deps)
            &&& table.members(v[i].deps).len() <= action_count
            &&& (v[i].next == -1 || (i < v[i].next < bound))
        }
}

/// Each parent is `GIVEN` or one of the first `n` shapes.
pub open spec fn parents_ok(parents: [i32; 2], n: int) -> bool {
    &&& (parents@[0] == GIVEN || (0 <= parents@[0] < n))
    &&& (parents@[1] == GIVEN || (0 <= parents@[1] < n))
}

/// `after` is `before` with at most the links changed, each changed link
/// from the end of a chain to `index`.
pub open spec fn relinked(before: Seq<Origin>, after: Seq<Origin>, index: i32) -> bool {
    &&& after.len() == before.len()
    &&& forall|j: int|
        0 <= j < before.len() ==> {
            &&& (#[trigger] after[j]).deps == before[j].deps
            &&& after[j].parents == before[j].parents
            &&& after[j].found_shape_mask == before[j].found_shape_mask
            &&& (after[j].next == before[j].next || (before[j].next == -1 && after[j].next == index))
        }
}

/// Walks the chain of records of an entity from `first`. Returns false where
/// a record on it needs no more than `deps` (the new way is no better);
/// otherwise links the end of the chain to `index` and returns true.
fn update_seen_before(
    origins: &mut Vec<Origin>,
    table: &DepsTable,
    action_count: u32,
    first: usize,
    index: i32,
    deps: u64,
) -> (r: bool)
    requires
        table.wf(),
        table.valid(deps),
        first < old(origins)@.len(),
        index == old(origins)@.len(),
        origins_ok(*table, old(origins)@, action_count, old(origins)@.len() as int),
    ensures
        relinked(old(origins)@, final(origins)@, index),
        origins_ok(*table, final(origins)@, action_count, index + 1),
        !r ==> final(origins)@ == old(origins)@ && exists|j: int|
            0 <= j < old(origins)@.len() && table.members(
                #[trigger] old(origins)@[j].deps,
            ).subset_of(table.members(deps)),
{
    let mut i: usize = first;
    let ghost o0 = origins@;
    loop
        invariant
            table.wf(),
            table.valid(deps),
            i < origins@.len(),
            origins@ == o0,
            o0 == old(origins)@,
            index == o0.len(),
            origins_ok(*table, o0, action_count, o0.len() as int),
        decreases o0.len() - i,
    {
        let o = origins[i];
        let both = table.get_combined_deps_count(o.deps, deps);
        let alone = table.get_deps_count(deps);
        if both == alone {
            proof {
                let so = table.members(o.deps);
                let sd = table.members(deps);
                table.get_deps_count_finite(o.deps);
                vstd::set_lib::lemma_len_union_ind(sd, so);
                assert(sd.union(so) =~= so.union(sd));
                vstd::set_lib::lemma_subset_equality(sd, so.union(sd));
                assert(so.subset_of(sd));
                assert(table.members(o0[i as int].deps).subset_of(sd));
                assert(o0 == old(origins)@);
                assert(relinked(o0, o0, index));
            }
            return false;
        }
        if o.next < 0 {
            let mut o2 = o;
            o2.next = index;
            origins.set(i, o2);
            proof {
                assert forall|j: int| 0 <= j < o0.len() implies {
                    &&& (#[trigger] origins@[j]).deps == o0[j].deps
                    &&& origins@[j].parents == o0[j].parents
                    &&& origins@[j].found_shape_mask == o0[j].found_shape_mask
                    &&& (origins@[j].next == o0[j].next || (o0[j].next == -1 && origins@[j].next
                        == index))
                } by {}
            }
            return true;
        }
        i = o.next as usize;
    }
}

/// The dependency table and the records of all points and shapes.
pub struct Registry {
    table: DepsTable,
    point_origins: Vec<Origin>,
    shape_origins: Vec<Origin>,
    action_count: u32,
}

impl Registry {
    pub closed spec fn table(&self) -> DepsTable {
        self.table
    }

    pub closed spec fn points(&self) -> Seq<Origin> {
        self.point_origins@
    }

    pub closed spec fn shapes(&self) -> Seq<Origin> {
        self.shape_origins@
    }

    pub closed spec fn budget(&self) -> u32 {
        self.action_count
    }

    /// Every record is within the budget and its links lead forward; the
    /// parents of points are recorded shapes.
    pub open spec fn wf(&self) -> bool {
        &&& self.table().wf()
        &&& origins_ok(self.table(), self.points(), self.budget(), self.points().len() as int)
        &&& origins_ok(self.table(), self.shapes(), self.budget(), self.shapes().len() as int)
        &&& forall|i: int|
            0 <= i < self.points().len() ==> parents_ok(
                (#[trigger] self.points()[i]).parents,
                self.shapes().len() as int,
            )
        &&& self.points().len() < i32::MAX
        &&& self.shapes().len() < i32::MAX
    }

    /// The members of the dependency set of a word.
    pub open spec fn members(&self, d: u64) -> Set<int> {
        self.table().members(d)
    }

    pub fn new(action_count: u32) -> (r: Registry)
        ensures
            r.wf(),
            r.points().len() == 0,
            r.shapes().len() == 0,
            r.budget() == action_count,
    {
        Registry {
            table: DepsTable::new(),
            point_origins: Vec::new(),
            shape_origins: Vec::new(),
            action_count,
        }
    }

    /// The dependency table.
    pub fn deps_table(&self) -> (r: &DepsTable)
        ensures
            *r == self.table(),
    {
        &self.table
    }

    /// The budget of steps.
    pub fn action_count(&self) -> (r: u32)
        ensures
            r == self.budget(),
    {
        self.action_count
    }

    pub fn point_count(&self) -> (r: usize)
        ensures
            r == self.points().len(),
    {
        self.point_origins.len()
    }

    pub fn shape_count(&self) -> (r: usize)
        ensures
            r == self.shapes().len(),
    {
        self.shape_origins.len()
    }

    pub fn point_origin(&self, i: usize) -> (r: Origin)
        requires
            i < self.points().len(),
        ensures
            r == self.points()[i as int],
    {
        self.point_origin_at(i)
    }

    fn point_origin_at(&self, i: usize) -> (r: Origin)
        requires
            i < self.points().len(),
        ensures
            r == self.points()[i as int],
    {
        self.point_origins[i]
    }

    pub fn shape_origin(&self, i: usize) -> (r: Origin)
        requires
            i < self.shapes().len(),
        ensures
            r == self.shapes()[i as int],
    {
        self.shape_origins[i]
    }

    /// Another step can be recorded: the table has room for two new lists
    /// and the indices still fit an `i32`.
    pub fn has_room(&self) -> (r: bool)
        ensures
            r == (self.table()@.len() + 1 < crate::deps::MAX_COMBINATIONS && self.points().len()
                < i32::MAX - 1 && self.shapes().len() < i32::MAX - 1),
    {
        self.table.len() < crate::deps::MAX_COMBINATIONS - 1 && self.point_origins.len() < (
        i32::MAX - 1) as usize && self.shape_origins.len() < (i32::MAX - 1) as usize
    }

    /// Records a point obtained as the intersection of the shapes `parents`
    /// (`GIVEN` for a given point). Where the point was seen before, `first`
    /// is its first record. Returns the index of the new record; none where
    /// its dependency set exceeds the budget, or where an earlier record of
    /// the point needs no more.
    pub fn register_point_origin(&mut self, parents: [i32; 2], first: Option<usize>) -> (r: Option<usize>)
        requires
            old(self).wf(),
            old(self).table().has_room() || crate::deps::stored_union(
                old(self).table(),
                parent_word(*old(self), parents, 0),
                parent_word(*old(self), parents, 1),
                None,
            ),
            old(self).points().len() < i32::MAX - 1,
            parents_ok(parents, old(self).shapes().len() as int),
            first matches Some(f) ==> f < old(self).points().len(),
        ensures
            final(self).wf(),
            old(self).table()@.is_prefix_of(final(self).table()@),
            final(self).shapes() == old(self).shapes(),
            final(self).budget() == old(self).budget(),
            r matches Some(i) ==> {
                &&& i == old(self).points().len()
                &&& final(self).points().len() == i + 1
                &&& final(self).points()[i as int].parents == parents
                &&& final(self).points()[i as int].found_shape_mask == parent_mask(*old(self), parents)
                &&& final(self).members(final(self).points()[i as int].deps) == parent_members(*old(self), parents)
            },
            r is None ==> final(self).points().len() == old(self).points().len() && (
            parent_members(*old(self), parents).len() > old(self).budget() || exists|j: int|
                0 <= j < old(self).points().len() && old(self).members(
                    #[trigger] old(self).points()[j].deps,
                ).subset_of(parent_members(*old(self), parents))),
            first is None && parent_members(*old(self), parents).len() <= old(self).budget()
                ==> r is Some,
            relinked(old(self).points(), final(self).points().take(old(self).points().len() as int), old(self).points().len() as i32),
    {
        let mut mask: u32 = 0;
        let d1 = if parents[0] >= 0 {
            let o = self.shape_origins[parents[0] as usize];
            mask = mask | o.found_shape_mask;
            o.deps
        } else {
            0
        };
        let d2 = if parents[1] >= 0 {
            let o = self.shape_origins[parents[1] as usize];
            mask = mask | o.found_shape_mask;
            o.deps
        } else {
            0
        };
        let ghost t0 = self.table;
        proof {
            assert(forall|x: u32| #[trigger] (0u32 | x) == x && (x | 0u32) == x) by (bit_vector);
            assert(mask == parent_mask(*old(self), parents));
            assert(0u64 >> 40u64 == 0) by (bit_vector);
            assert(parents@[0] == parents[0]);
            assert(parents@[1] == parents[1]);
        }
        let combined = self.table.combine_deps(d1, d2, None);
        proof {
            self.lemma_regrown(t0);
        }
        let count = self.table.get_deps_count(combined);
        proof {
            lemma_parent_members(*old(self), parents, d1, d2);
            assert(self.members(combined) == parent_members(*old(self), parents));
            assert forall|j: int| 0 <= j < old(self).points().len() implies old(self).members(
                #[trigger] old(self).points()[j].deps) == self.members(old(self).points()[j].deps) by {
                t0.lemma_grown(self.table(), old(self).points()[j].deps);
            }
        }
        if count > self.action_count as u64 {
            proof {
                assert(self.points().take(self.points().len() as int) =~= self.points());
            }
            return None;
        }
        let index = self.point_origins.len();
        match first {
            Some(f) => {
                if !update_seen_before(&mut self.point_origins, &self.table, self.action_count, f, index as i32, combined) {
                    proof {
                        assert(self.points().take(self.points().len() as int) =~= self.points());
                    }
                    return None;
                }
            },
            None => {
                proof {
                    assert(relinked(old(self).points(), self.points(), index as i32));
                }
            },
        }
        let ghost before_push = self.point_origins@;
        self.point_origins.push(Origin { deps: combined, parents, found_shape_mask: mask, next: -1 });
        proof {
            assert(self.points().take(index as int) =~= before_push);
            assert(parent_members(*old(self), parents) == t0.members(d1).union(t0.members(d2)).union(index_members(None))) by {
                lemma_parent_members(*old(self), parents, d1, d2);
            }
            assert forall|i: int|
                0 <= i < self.points().len() implies parents_ok(
                    (#[trigger] self.points()[i]).parents,
                    self.shapes().len() as int,
                ) by {
                if i < index {
                    assert(self.points()[i] == before_push[i]);
                    assert(before_push[i].parents == old(self).points()[i].parents);
                }
            }
            assert forall|i: int| 0 <= i < self.points().len() implies {
                &&& self.table().valid(#[trigger] self.points()[i].deps)
                &&& self.table().members(self.points()[i].deps).len() <= self.budget()
                &&& (self.points()[i].next == -1 || (i < self.points()[i].next < self.points().len()))
            } by {
                if i < index {
                    assert(self.points()[i] == before_push[i]);
                }
            }
        }
        Some(index)
    }

    /// Records a shape whose dependency set is `deps`. Where the shape was
    /// seen before, `first` is its first record. Returns the index of the new
    /// record; none where its dependency set exceeds the budget, or where an
    /// earlier record of the shape needs no more.
    pub fn register_shape_origin(&mut self, deps: u64, found_shape_mask: u32, first: Option<usize>) -> (r: Option<usize>)
        requires
            old(self).wf(),
            old(self).table().valid(deps),
            old(self).shapes().len() < i32::MAX - 1,
            first matches Some(f) ==> f < old(self).shapes().len(),
        ensures
            final(self).wf(),
            final(self).table() == old(self).table(),
            final(self).points() == old(self).points(),
            final(self).budget() == old(self).budget(),
            r matches Some(i) ==> {
                &&& i == old(self).shapes().len()
                &&& final(self).shapes().len() == i + 1
                &&& final(self).shapes()[i as int].deps == deps
                &&& final(self).shapes()[i as int].found_shape_mask == found_shape_mask
            },
            r is None ==> final(self).shapes() == old(self).shapes() && (final(self).members(deps).len() > final(self).budget()
                || exists|j: int| 0 <= j < old(self).shapes().len() && final(self).members(
                    #[trigger] old(self).shapes()[j].deps).subset_of(final(self).members(deps))),
            first is None && old(self).members(deps).len() <= old(self).budget() ==> r is Some,
            relinked(old(self).shapes(), final(self).shapes().take(old(self).shapes().len() as int), old(self).shapes().len() as i32),
    {
        let count = self.table.get_deps_count(deps);
        if count > self.action_count as u64 {
            proof {
                assert(self.shapes().take(self.shapes().len() as int) =~= self.shapes());
            }
            return None;
        }
        let index = self.shape_origins.len();
        match first {
            Some(f) => {
                if !update_seen_before(&mut self.shape_origins, &self.table, self.action_count, f, index as i32, deps) {
                    proof {
                        assert(self.shapes().take(self.shapes().len() as int) =~= self.shapes());
                    }
                    return None;
                }
            },
            None => {
                proof {
                    assert(relinked(old(self).shapes(), self.shapes(), index as i32));
                }
            },
        }
        let ghost before_push = self.shape_origins@;
        self.shape_origins.push(Origin { deps, parents: [GIVEN, GIVEN], found_shape_mask, next: -1 });
        proof {
            assert(self.shapes().take(index as int) =~= before_push);
            assert forall|i: int| 0 <= i < self.shapes().len() implies {
                &&& self.table().valid(#[trigger] self.shapes()[i].deps)
                &&& self.table().members(self.shapes()[i].deps).len() <= self.budget()
                &&& (self.shapes()[i].next == -1 || (i < self.shapes()[i].next < self.shapes().len()))
            } by {
                if i < index {
                    assert(self.shapes()[i] == before_push[i]);
                }
            }
        }
        Some(index)
    }

    /// The dependency set and the found-target mask of the result of a step:
    /// the union of its inputs' sets with the step's own `index`, and the
    /// union of their masks with `target_mask` where the result is a target.
    pub fn process(
        &mut self,
        action_type: ActionType,
        point_index_1: i32,
        point_index_2: i32,
        extra_index: i32,
        index: i32,
        target_mask: Option<u32>,
    ) -> (r: (u64, u32))
        requires
            old(self).wf(),
            old(self).table()@.len() + 1 < crate::deps::MAX_COMBINATIONS,
            index >= 0,
            inputs_ok(*old(self), action_type, point_index_1, point_index_2, extra_index),
        ensures
            final(self).wf(),
            old(self).table()@.is_prefix_of(final(self).table()@),
            final(self).points() == old(self).points(),
            final(self).shapes() == old(self).shapes(),
            final(self).budget() == old(self).budget(),
            final(self).table().valid(r.0),
            final(self).members(r.0) == input_members(*old(self), action_type, point_index_1, point_index_2, extra_index).insert(index as int),
            r.1 == (match target_mask {
                Some(m) => input_mask(*old(self), action_type, point_index_1, point_index_2, extra_index) | m,
                None => input_mask(*old(self), action_type, point_index_1, point_index_2, extra_index),
            }),
    {
        let o1 = self.point_origins[point_index_1 as usize];
        let group: u32 = match action_type {
            ActionType::TwoPointActionType(_) => 0,
            ActionType::PointAndLineActionType(_) => 1,
            ActionType::ThreePointActionType(_) => 2,
            ActionType::TwoPointAndLineActionType(_) => 3,
        };
        let ghost t0 = self.table;
        let (d2, m2) = if group == 1 {
            let o = self.shape_origins[extra_index as usize];
            (o.deps, o.found_shape_mask)
        } else {
            let o = self.point_origins[point_index_2 as usize];
            (o.deps, o.found_shape_mask)
        };
        let first = self.table.combine_deps(o1.deps, d2, Some(index));
        proof {
            self.lemma_regrown(t0);
        }
        let mut mask = o1.found_shape_mask | m2;
        let deps = if group == 2 || group == 3 {
            let (d3, m3) = if group == 2 {
                let o = self.point_origins[extra_index as usize];
                (o.deps, o.found_shape_mask)
            } else {
                let o = self.shape_origins[extra_index as usize];
                (o.deps, o.found_shape_mask)
            };
            mask = mask | m3;
            let ghost t1 = self.table;
            proof {
                t0.lemma_grown(t1, d3);
            }
            let d = self.table.combine_deps(first, d3, None);
            proof {
                self.lemma_regrown(t1);
                t0.lemma_grown(t1, o1.deps);
                t0.lemma_grown(t1, d2);
            }
            d
        } else {
            first
        };
        match target_mask {
            Some(m) => {
                mask = mask | m;
            },
            None => {},
        }
        proof {
            assert(self.members(deps) =~= input_members(*old(self), action_type, point_index_1, point_index_2, extra_index).insert(index as int));
        }
        (deps, mask)
    }

    /// The word of the union of two sets of the table and of `index`; see
    /// `DepsTable::combine_deps`. The records keep their sets.
    pub fn combine_deps(&mut self, d1: u64, d2: u64, index: Option<i32>) -> (r: u64)
        requires
            old(self).wf(),
            old(self).table().has_room() || crate::deps::stored_union(old(self).table(), d1, d2, index),
            old(self).table().valid(d1),
            old(self).table().valid(d2),
            index.is_some() ==> index.unwrap() >= 0,
        ensures
            final(self).wf(),
            crate::deps::combined(old(self).table(), final(self).table(), d1, d2, index, r),
            final(self).points() == old(self).points(),
            final(self).shapes() == old(self).shapes(),
            final(self).budget() == old(self).budget(),
    {
        let ghost t0 = self.table;
        let r = self.table.combine_deps(d1, d2, index);
        proof {
            self.lemma_regrown(t0);
        }
        r
    }

    /// Unpacks bits against `all`; see `DepsTable::decompress`. The records
    /// keep their sets.
    pub fn decompress(&mut self, union: u64, all: u64) -> (r: u64)
        requires
            old(self).wf(),
            old(self).table().has_room(),
            old(self).table().valid(all),
            old(self).table().members(all).len() <= 64,
        ensures
            final(self).wf(),
            crate::deps::decompressed(old(self).table(), final(self).table(), all, union, r),
            final(self).points() == old(self).points(),
            final(self).shapes() == old(self).shapes(),
            final(self).budget() == old(self).budget(),
    {
        let ghost t0 = self.table;
        let r = self.table.decompress(union, all);
        proof {
            self.lemma_regrown(t0);
        }
        r
    }

    /// The dependency sets of the inputs of a step, three of them, `0` where
    /// the step has fewer inputs.
    pub fn get_action_deps(&self, action_type: ActionType, point_index_1: i32, point_index_2: i32, extra_index: i32) -> (r: [u64; 3])
        requires
            inputs_ok(*self, action_type, point_index_1, point_index_2, extra_index),
        ensures
            r@[0] == self.points()[point_index_1 as int].deps,
            group_of(action_type) == 0 ==> r@[1] == self.points()[point_index_2 as int].deps && r@[2] == 0,
            group_of(action_type) == 1 ==> r@[1] == self.shapes()[extra_index as int].deps && r@[2] == 0,
            group_of(action_type) == 2 ==> r@[1] == self.points()[point_index_2 as int].deps && r@[2] == self.points()[extra_index as int].deps,
            group_of(action_type) == 3 ==> r@[1] == self.points()[point_index_2 as int].deps && r@[2] == self.shapes()[extra_index as int].deps,
    {
        let d1 = self.point_origins[point_index_1 as usize].deps;
        match action_type {
            ActionType::TwoPointActionType(_) => [d1, self.point_origins[point_index_2 as usize].deps, 0],
            ActionType::PointAndLineActionType(_) => [d1, self.shape_origins[extra_index as usize].deps, 0],
            ActionType::ThreePointActionType(_) => [
                d1,
                self.point_origins[point_index_2 as usize].deps,
                self.point_origins[extra_index as usize].deps,
            ],
            ActionType::TwoPointAndLineActionType(_) => [
                d1,
                self.point_origins[point_index_2 as usize].deps,
                self.shape_origins[extra_index as usize].deps,
            ],
        }
    }

    /// The dependency sets of all the records of an entity, following its
    /// chain from `first`.
    pub fn chain_deps(&self, first: usize, of_points: bool) -> (r: Vec<u64>)
        requires
            self.wf(),
            of_points ==> first < self.points().len(),
            !of_points ==> first < self.shapes().len(),
        ensures
            r@ == chain_of(if of_points { self.points() } else { self.shapes() }, first as int),
            r@.len() >= 1,
            forall|k: int| 0 <= k < r@.len() ==> self.table().valid(#[trigger] r@[k]),
    {
        let v = if of_points {
            &self.point_origins
        } else {
            &self.shape_origins
        };
        let ghost vs = v@;
        assert(vs == (if of_points { self.points() } else { self.shapes() }));
        let mut r: Vec<u64> = Vec::new();
        let mut i: usize = first;
        loop
            invariant
                self.wf(),
                vs == v@,
                vs == (if of_points { self.points() } else { self.shapes() }),
                i < vs.len(),
                r@ + chain_of(vs, i as int) == chain_of(vs, first as int),
                forall|k: int| 0 <= k < r@.len() ==> self.table().valid(#[trigger] r@[k]),
            decreases vs.len() - i,
        {
            let o = v[i];
            let ghost r0 = r@;
            r.push(o.deps);
            if o.next < 0 {
                proof {
                    assert(chain_of(vs, i as int) == seq![o.deps]);
                    assert(r@ =~= r0 + seq![o.deps]);
                    assert(chain_of(vs, first as int) =~= r@);
                }
                return r;
            }
            proof {
                assert(chain_of(vs, i as int) == seq![o.deps] + chain_of(vs, o.next as int));
                assert(r0 + chain_of(vs, i as int) =~= r@ + chain_of(vs, o.next as int));
            }
            i = o.next as usize;
        }
    }

    /// Looks for a coherent solution where targets were found in several
    /// ways. `point_firsts` and `shape_firsts` are the first records of the
    /// found target points and shapes; their chains list the ways each
    /// target was found. One record is picked for each target so that the
    /// union of the picked dependency sets has the fewest members, and its
    /// word is returned where that union fits the budget. None where no pick
    /// fits the budget, where all the sets together have more than 64
    /// members, or where the table is full.
    pub fn multimatch_solution(&mut self, point_firsts: &Vec<usize>, shape_firsts: &Vec<usize>) -> (r: Option<u64>)
        requires
            old(self).wf(),
            forall|k: int| 0 <= k < point_firsts@.len() ==> #[trigger] point_firsts@[k] < old(self).points().len(),
            forall|k: int| 0 <= k < shape_firsts@.len() ==> #[trigger] shape_firsts@[k] < old(self).shapes().len(),
        ensures
            final(self).wf(),
            old(self).table()@.is_prefix_of(final(self).table()@),
            final(self).points() == old(self).points(),
            final(self).shapes() == old(self).shapes(),
            final(self).budget() == old(self).budget(),
            ({
                let chains = target_chains(*old(self), point_firsts@, shape_firsts@);
                &&& r matches Some(w) ==> {
                    &&& final(self).table().valid(w)
                    &&& final(self).members(w).len() <= final(self).budget()
                    &&& exists|c: Seq<int>|
                        valid_choice(chains, c, 0) && final(self).members(w) == #[trigger] choice_members(
                            old(self).table(),
                            chains,
                            c,
                            0,
                        )
                    &&& forall|c: Seq<int>|
                        valid_choice(chains, c, 0) ==> final(self).members(w).len() <= #[trigger] choice_members(
                            old(self).table(),
                            chains,
                            c,
                            0,
                        ).len()
                }
                &&& r is None ==> {
                    ||| forall|c: Seq<int>|
                        valid_choice(chains, c, 0) ==> #[trigger] choice_members(
                            old(self).table(),
                            chains,
                            c,
                            0,
                        ).len() > old(self).budget()
                    ||| all_members(old(self).table(), chains).len() > 64
                    ||| !final(self).table().has_room()
                }
            }),
    {
        let ghost t_old = self.table();
        let ghost chains_spec = target_chains(*self, point_firsts@, shape_firsts@);
        let mut chains: Vec<Vec<u64>> = Vec::new();
        let mut k: usize = 0;
        while k < point_firsts.len()
            invariant
                self.wf(),
                self == old(self),
                t_old == self.table(),
                chains_spec == target_chains(*old(self), point_firsts@, shape_firsts@),
                forall|j: int| 0 <= j < point_firsts@.len() ==> #[trigger] point_firsts@[j] < self.points().len(),
                k <= point_firsts@.len(),
                chains@.len() == k,
                forall|a: int| 0 <= a < k ==> (#[trigger] chains@[a])@ == chains_spec[a],
                forall|a: int| 0 <= a < k ==> (#[trigger] chains@[a])@.len() >= 1,
                forall|c: int, j: int| 0 <= c < chains@.len() && 0 <= j < chains@[c]@.len() ==> self.table().valid(#[trigger] chains@[c]@[j]),
            decreases point_firsts.len() - k,
        {
            let chain = self.chain_deps(point_firsts[k], true);
            chains.push(chain);
            k = k + 1;
        }
        let mut k: usize = 0;
        while k < shape_firsts.len()
            invariant
                self.wf(),
                self == old(self),
                t_old == self.table(),
                chains_spec == target_chains(*old(self), point_firsts@, shape_firsts@),
                forall|j: int| 0 <= j < shape_firsts@.len() ==> #[trigger] shape_firsts@[j] < self.shapes().len(),
                k <= shape_firsts@.len(),
                chains@.len() == point_firsts@.len() + k,
                forall|a: int| 0 <= a < chains@.len() ==> (#[trigger] chains@[a])@ == chains_spec[a],
                forall|a: int| 0 <= a < chains@.len() ==> (#[trigger] chains@[a])@.len() >= 1,
                forall|c: int, j: int| 0 <= c < chains@.len() && 0 <= j < chains@[c]@.len() ==> self.table().valid(#[trigger] chains@[c]@[j]),
            decreases shape_firsts.len() - k,
        {
            let chain = self.chain_deps(shape_firsts[k], false);
            chains.push(chain);
            k = k + 1;
        }
        let ghost cs = views_of(chains@);
        proof {
            assert(cs =~= chains_spec);
            crate::deps::lemma_zero_members(self.table());
            assert(all_members_upto(t_old, cs, 0, 0) =~= Set::empty());
        }
        let mut all: u64 = 0;
        let mut c: usize = 0;
        while c < chains.len()
            invariant
                self.wf(),
                t_old.wf(),
                t_old@.is_prefix_of(self.table()@),
                old(self).table() == t_old,
                self.points() == old(self).points(),
                self.shapes() == old(self).shapes(),
                self.budget() == old(self).budget(),
                self.table().valid(all),
                cs == views_of(chains@),
                c <= chains@.len(),
                self.members(all) == all_members_upto(t_old, cs, c as int, 0),
                forall|a: int, j: int| 0 <= a < cs.len() && 0 <= j < cs[a].len() ==> t_old.valid(#[trigger] cs[a][j]),
            decreases chains.len() - c,
        {
            let chain = &chains[c];
            assert(chain@ == cs[c as int]);
            let mut j: usize = 0;
            while j < chain.len()
                invariant
                    self.wf(),
                    t_old.wf(),
                    t_old@.is_prefix_of(self.table()@),
                    old(self).table() == t_old,
                    self.points() == old(self).points(),
                    self.shapes() == old(self).shapes(),
                    self.budget() == old(self).budget(),
                    self.table().valid(all),
                    cs == views_of(chains@),
                    c < chains@.len(),
                    chain@ == cs[c as int],
                    j <= chain@.len(),
                    self.members(all) == all_members_upto(t_old, cs, c as int, j as int),
                    forall|a: int, i: int| 0 <= a < cs.len() && 0 <= i < cs[a].len() ==> t_old.valid(#[trigger] cs[a][i]),
                decreases chain.len() - j,
            {
                if !self.table.room_left() {
                    return None;
                }
                let d = chain[j];
                let ghost t0 = self.table();
                proof {
                    t_old.lemma_grown(t0, d);
                }
                all = self.combine_deps(all, d, None);
                proof {
                    lemma_all_members_step(t_old, cs, c as int, j as int);
                    assert(self.members(all) =~= all_members_upto(t_old, cs, c as int, j + 1));
                }
                j = j + 1;
            }
            proof {
                lemma_all_members_next_chain(t_old, cs, c as int);
            }
            c = c + 1;
        }
        proof {
            lemma_all_members_done(t_old, cs);
        }
        if self.table.get_deps_count(all) > 64 {
            return None;
        }
        let ghost t1 = self.table();
        proof {
            lemma_members_within_all(t_old, t1, cs, all);
        }
        let mut lists: Vec<Vec<u64>> = Vec::new();
        let mut c: usize = 0;
        while c < chains.len()
            invariant
                self.wf(),
                self.table() == t1,
                self.table().valid(all),
                self.table().members(all).len() <= 64,
                cs == views_of(chains@),
                c <= chains@.len(),
                lists@.len() == c,
                forall|a: int| 0 <= a < c ==> (#[trigger] lists@[a])@.len() == cs[a].len(),
                forall|a: int, i: int| 0 <= a < cs.len() && 0 <= i < cs[a].len() ==> {
                    &&& t1.valid(#[trigger] cs[a][i])
                    &&& t1.members(cs[a][i]).subset_of(t1.members(all))
                },
                forall|a: int, i: int| 0 <= a < c && 0 <= i < cs[a].len() ==> crate::deps::compressed(t1, cs[a][i], all, #[trigger] lists@[a]@[i]),
            decreases chains.len() - c,
        {
            let chain = &chains[c];
            assert(chain@ == cs[c as int]);
            let mut packed: Vec<u64> = Vec::new();
            let mut j: usize = 0;
            while j < chain.len()
                invariant
                    self.wf(),
                    self.table() == t1,
                    self.table().valid(all),
                    self.table().members(all).len() <= 64,
                    c < cs.len(),
                    chain@ == cs[c as int],
                    j <= chain@.len(),
                    packed@.len() == j,
                    forall|a: int, i: int| 0 <= a < cs.len() && 0 <= i < cs[a].len() ==> {
                        &&& t1.valid(#[trigger] cs[a][i])
                        &&& t1.members(cs[a][i]).subset_of(t1.members(all))
                    },
                    forall|i: int| 0 <= i < j ==> crate::deps::compressed(t1, cs[c as int][i], all, #[trigger] packed@[i]),
                decreases chain.len() - j,
            {
                assert(t1.valid(cs[c as int][j as int]));
                packed.push(self.table.compress(chain[j], all));
                j = j + 1;
            }
            lists.push(packed);
            c = c + 1;
        }
        let ghost ls = views_of(lists@);
        proof {
            assert(packed_lists(t1, cs, ls, all));
            assert(!some_list_empty(ls, 0)) by {
                if some_list_empty(ls, 0) {
                    let a = choose|a: int| 0 <= a < ls.len() && #[trigger] ls[a].len() == 0;
                    assert(cs[a].len() >= 1);
                }
            }
        }
        let shortest = crate::multimatch::find_shortest_deps_union(&lists, 0, 0);
        let ghost best = choose|c: Seq<int>| valid_choice(ls, c, 0) && shortest == #[trigger] union_of_choice(ls, c, 0, 0);
        proof {
            lemma_choice_count(t1, cs, ls, all, best);
            assert(valid_choice(cs, best, 0));
            lemma_choice_members_grown(t_old, t1, cs, best, 0);
            assert forall|c2: Seq<int>| valid_choice(cs, c2, 0) implies popcount(shortest) <= #[trigger] choice_members(t_old, cs, c2, 0).len() by {
                assert(valid_choice(ls, c2, 0));
                lemma_choice_count(t1, cs, ls, all, c2);
                lemma_choice_members_grown(t_old, t1, cs, c2, 0);
            }
        }
        if count_ones(shortest) > self.action_count as u64 {
            return None;
        }
        if !self.table.room_left() {
            return None;
        }
        let w = self.decompress(shortest, all);
        proof {
            assert(self.members(w) == expanded(t1.member_seq(all), shortest));
            assert(self.members(w) == choice_members(t_old, cs, best, 0));
        }
        Some(w)
    }

    /// Where the table grew, the records keep their sets.
    proof fn lemma_regrown(&self, before: DepsTable)
        requires
            before.wf(),
            before@.is_prefix_of(self.table()@),
            self.table().wf(),
            origins_ok(before, self.points(), self.budget(), self.points().len() as int),
            origins_ok(before, self.shapes(), self.budget(), self.shapes().len() as int),
        ensures
            origins_ok(self.table(), self.points(), self.budget(), self.points().len() as int),
            origins_ok(self.table(), self.shapes(), self.budget(), self.shapes().len() as int),
    {
        assert forall|i: int| 0 <= i < self.points().len() implies {
            &&& self.table().valid(#[trigger] self.points()[i].deps)
            &&& self.table().members(self.points()[i].deps).len() <= self.budget()
            &&& (self.points()[i].next == -1 || (i < self.points()[i].next < self.points().len()))
        } by {
            before.lemma_grown(self.table(), self.points()[i].deps);
        }
        assert forall|i: int| 0 <= i < self.shapes().len() implies {
            &&& self.table().valid(#[trigger] self.shapes()[i].deps)
            &&& self.table().members(self.shapes()[i].deps).len() <= self.budget()
            &&& (self.shapes()[i].next == -1 || (i < self.shapes()[i].next < self.shapes().len()))
        } by {
            before.lemma_grown(self.table(), self.shapes()[i].deps);
        }
    }
}

/// The input indices of a step name records of the right kind: points
/// first, then a third point or a line as the kind needs.
pub open spec fn inputs_ok(reg: Registry, t: ActionType, p1: i32, p2: i32, extra: i32) -> bool {
    &&& 0 <= p1 < reg.points().len()
    &&& (group_of(t) != 1 ==> 0 <= p2 < reg.points().len())
    &&& (group_of(t) == 1 || group_of(t) == 3 ==> 0 <= extra < reg.shapes().len())
    &&& (group_of(t) == 2 ==> 0 <= extra < reg.points().len())
}

/// The union of the dependency sets of a step's inputs.
pub open spec fn input_members(reg: Registry, t: ActionType, p1: i32, p2: i32, extra: i32) -> Set<int> {
    let a = reg.members(reg.points()[p1 as int].deps);
    let g = group_of(t);
    if g == 0 {
        a.union(reg.members(reg.points()[p2 as int].deps))
    } else if g == 1 {
        a.union(reg.members(reg.shapes()[extra as int].deps))
    } else if g == 2 {
        a.union(reg.members(reg.points()[p2 as int].deps)).union(reg.members(reg.points()[extra as int].deps))
    } else {
        a.union(reg.members(reg.points()[p2 as int].deps)).union(reg.members(reg.shapes()[extra as int].deps))
    }
}

/// The dependency sets along the chain of records from `i`.
pub open spec fn chain_of(v: Seq<Origin>, i: int) -> Seq<u64>
    decreases v.len() - i,
{
    if i < 0 || i >= v.len() {
        Seq::empty()
    } else if i < v[i].next < v.len() {
        seq![v[i].deps] + chain_of(v, v[i].next as int)
    } else {
        seq![v[i].deps]
    }
}

/// The chains of the found target points, then of the found target shapes.
pub open spec fn target_chains(reg: Registry, point_firsts: Seq<usize>, shape_firsts: Seq<usize>) -> Seq<Seq<u64>> {
    Seq::new(point_firsts.len(), |k: int| chain_of(reg.points(), point_firsts[k] as int)) + Seq::new(
        shape_firsts.len(),
        |k: int| chain_of(reg.shapes(), shape_firsts[k] as int),
    )
}

/// The members of all the sets of the lists before list `c`, and of the
/// first `j` sets of list `c`.
pub open spec fn all_members_upto(t: DepsTable, chains: Seq<Seq<u64>>, c: int, j: int) -> Set<int> {
    Set::new(|x: int| exists|a: int, i: int|
        0 <= a < chains.len() && 0 <= i < chains[a].len() && (a < c || (a == c && i < j))
            && #[trigger] t.members(chains[a][i]).contains(x))
}

/// The members of all the sets of all the lists.
pub open spec fn all_members(t: DepsTable, chains: Seq<Seq<u64>>) -> Set<int> {
    all_members_upto(t, chains, chains.len() as int, 0)
}

proof fn lemma_all_members_step(t: DepsTable, chains: Seq<Seq<u64>>, c: int, j: int)
    requires
        0 <= c < chains.len(),
        0 <= j < chains[c].len(),
    ensures
        all_members_upto(t, chains, c, j + 1) == all_members_upto(t, chains, c, j).union(t.members(chains[c][j])),
{
    assert forall|x: int| #[trigger] all_members_upto(t, chains, c, j + 1).contains(x) <==> (all_members_upto(t, chains, c, j).contains(x) || t.members(chains[c][j]).contains(x)) by {
        if all_members_upto(t, chains, c, j + 1).contains(x) && !t.members(chains[c][j]).contains(x) {
            let (a, i) = choose|a: int, i: int|
                0 <= a < chains.len() && 0 <= i < chains[a].len() && (a < c || (a == c && i < j + 1))
                    && #[trigger] t.members(chains[a][i]).contains(x);
            assert(a < c || i < j);
        }
        if t.members(chains[c][j]).contains(x) {
            assert(0 <= c < chains.len() && 0 <= j < chains[c].len() && (c < c || (c == c && j < j + 1)) && t.members(chains[c][j]).contains(x));
        }
    }
    assert(all_members_upto(t, chains, c, j + 1) =~= all_members_upto(t, chains, c, j).union(t.members(chains[c][j])));
}

proof fn lemma_all_members_next_chain(t: DepsTable, chains: Seq<Seq<u64>>, c: int)
    requires
        0 <= c < chains.len(),
    ensures
        all_members_upto(t, chains, c, chains[c].len() as int) == all_members_upto(t, chains, c + 1, 0),
{
    assert(all_members_upto(t, chains, c, chains[c].len() as int) =~= all_members_upto(t, chains, c + 1, 0));
}

proof fn lemma_all_members_done(t: DepsTable, chains: Seq<Seq<u64>>)
    ensures
        all_members_upto(t, chains, chains.len() as int, 0) == all_members(t, chains),
{
}

/// Every set of the lists lies within their union, in a grown table too.
proof fn lemma_members_within_all(t_old: DepsTable, t1: DepsTable, chains: Seq<Seq<u64>>, all: u64)
    requires
        t_old@.is_prefix_of(t1@),
        t1.members(all) == all_members(t_old, chains),
        forall|a: int, j: int| 0 <= a < chains.len() && 0 <= j < chains[a].len() ==> t_old.valid(#[trigger] chains[a][j]),
    ensures
        forall|a: int, j: int| 0 <= a < chains.len() && 0 <= j < chains[a].len() ==> {
            &&& t1.valid(#[trigger] chains[a][j])
            &&& t1.members(chains[a][j]).subset_of(t1.members(all))
        },
{
    assert forall|a: int, j: int| 0 <= a < chains.len() && 0 <= j < chains[a].len() implies {
        &&& t1.valid(#[trigger] chains[a][j])
        &&& t1.members(chains[a][j]).subset_of(t1.members(all))
    } by {
        t_old.lemma_grown(t1, chains[a][j]);
        assert forall|x: int| t1.members(chains[a][j]).contains(x) implies t1.members(all).contains(x) by {
            assert(t_old.members(chains[a][j]).contains(x));
        }
    }
}

/// The union of the found-target masks of a step's inputs.
pub open spec fn input_mask(reg: Registry, t: ActionType, p1: i32, p2: i32, extra: i32) -> u32 {
    let a = reg.points()[p1 as int].found_shape_mask;
    let g = group_of(t);
    if g == 0 {
        a | reg.points()[p2 as int].found_shape_mask
    } else if g == 1 {
        a | reg.shapes()[extra as int].found_shape_mask
    } else if g == 2 {
        (a | reg.points()[p2 as int].found_shape_mask) | reg.points()[extra as int].found_shape_mask
    } else {
        (a | reg.points()[p2 as int].found_shape_mask) | reg.shapes()[extra as int].found_shape_mask
    }
}

/// The dependency set of parent `k` of a point: `0` for a given point.
pub open spec fn parent_word(reg: Registry, parents: [i32; 2], k: int) -> u64 {
    if parents@[k] >= 0 {
        reg.shapes()[parents@[k] as int].deps
    } else {
        0
    }
}

/// The union of the found-target masks of a point's parent shapes.
pub open spec fn parent_mask(reg: Registry, parents: [i32; 2]) -> u32 {
    let m0 = if parents@[0] >= 0 {
        reg.shapes()[parents@[0] as int].found_shape_mask
    } else {
        0u32
    };
    let m1 = if parents@[1] >= 0 {
        reg.shapes()[parents@[1] as int].found_shape_mask
    } else {
        0u32
    };
    m0 | m1
}

/// The members of the dependency sets of a point's parent shapes.
pub open spec fn parent_members(reg: Registry, parents: [i32; 2]) -> Set<int> {
    let s0 = if parents@[0] >= 0 {
        reg.members(reg.shapes()[parents@[0] as int].deps)
    } else {
        Set::empty()
    };
    let s1 = if parents@[1] >= 0 {
        reg.members(reg.shapes()[parents@[1] as int].deps)
    } else {
        Set::empty()
    };
    s0.union(s1)
}

proof fn lemma_parent_members(reg: Registry, parents: [i32; 2], d1: u64, d2: u64)
    requires
        reg.wf(),
        d1 == (if parents@[0] >= 0 { reg.shapes()[parents@[0] as int].deps } else { 0 }),
        d2 == (if parents@[1] >= 0 { reg.shapes()[parents@[1] as int].deps } else { 0 }),
    ensures
        parent_members(reg, parents) == reg.members(d1).union(reg.members(d2)).union(index_members(None)),
{
    crate::deps::lemma_zero_members(reg.table());
    assert(parent_members(reg, parents) =~= reg.members(d1).union(reg.members(d2)).union(index_members(None)));
}

/// Every retained record, of a point or of a shape, has a dependency set
/// within the budget.
pub proof fn law_retained_within_budget(reg: Registry, i: int)
    requires
        reg.wf(),
    ensures
        0 <= i < reg.points().len() ==> reg.members(reg.points()[i].deps).len() <= reg.budget(),
        0 <= i < reg.shapes().len() ==> reg.members(reg.shapes()[i].deps).len() <= reg.budget(),
{
    if 0 <= i < reg.points().len() {
        assert(reg.table().valid(reg.points()[i].deps));
    }
    if 0 <= i < reg.shapes().len() {
        assert(reg.table().valid(reg.shapes()[i].deps));
    }
}

} // verus!
