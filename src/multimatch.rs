//! Picking, for every target, one of the ways it was found, so that the
//! union of the picked dependency sets is as small as possible.
use vstd::prelude::*;
use crate::deps::{
    DepsTable, compressed, count_ones, expanded, lemma_expanded_compressed, lemma_expanded_or,
    lemma_popcount_expanded, popcount, bit_set,
};

verus! {

/// The contents of each list.
pub open spec fn views_of(lists: Seq<Vec<u64>>) -> Seq<Seq<u64>> {
    lists.map_values(|v: Vec<u64>| v@)
}

/// `c` picks an entry of every list from `idx` on.
pub open spec fn valid_choice(lists: Seq<Seq<u64>>, c: Seq<int>, idx: int) -> bool {
    &&& c.len() == lists.len()
    &&& forall|k: int| idx <= k < lists.len() ==> 0 <= #[trigger] c[k] < lists[k].len()
}

/// The union of `u` with the entries that `c` picks from the lists from
/// `idx` on.
pub open spec fn union_of_choice(lists: Seq<Seq<u64>>, c: Seq<int>, u: u64, idx: int) -> u64
    decreases lists.len() - idx,
{
    if idx < 0 || idx >= lists.len() {
        u
    } else {
        union_of_choice(lists, c, u | lists[idx][c[idx]], idx + 1)
    }
}

/// Some list from `idx` on is empty, so nothing can be picked.
pub open spec fn some_list_empty(lists: Seq<Seq<u64>>, idx: int) -> bool {
    exists|k: int| idx <= k < lists.len() && #[trigger] lists[k].len() == 0
}

proof fn lemma_union_agree(lists: Seq<Seq<u64>>, c1: Seq<int>, c2: Seq<int>, u: u64, idx: int)
    requires
        0 <= idx,
        forall|k: int| idx <= k < lists.len() ==> c1[k] == c2[k],
    ensures
        union_of_choice(lists, c1, u, idx) == union_of_choice(lists, c2, u, idx),
    decreases lists.len() - idx,
{
    if idx < lists.len() {
        lemma_union_agree(lists, c1, c2, u | lists[idx][c1[idx]], idx + 1);
    }
}

/// The smallest union, by number of members, of `union_so_far` with one
/// entry of each list from `index` on; the first such union in the order of
/// the lists' entries. `0` where some list is empty.
pub fn find_shortest_deps_union(deps_lists: &Vec<Vec<u64>>, union_so_far: u64, index: usize) -> (r: u64)
    requires
        index <= deps_lists@.len(),
    ensures
        some_list_empty(views_of(deps_lists@), index as int) ==> r == 0,
        !some_list_empty(views_of(deps_lists@), index as int) ==> {
            &&& exists|c: Seq<int>|
                valid_choice(views_of(deps_lists@), c, index as int) && r
                    == #[trigger] union_of_choice(
                    views_of(deps_lists@),
                    c,
                    union_so_far,
                    index as int,
                )
            &&& forall|c: Seq<int>|
                valid_choice(views_of(deps_lists@), c, index as int)
                    ==> popcount(r) <= popcount(
                    #[trigger] union_of_choice(
                        views_of(deps_lists@),
                        c,
                        union_so_far,
                        index as int,
                    ),
                )
        },
    decreases deps_lists@.len() - index,
{
    let ghost lists = views_of(deps_lists@);
    if index == deps_lists.len() {
        proof {
            let c = Seq::new(lists.len(), |k: int| 0int);
            assert(valid_choice(lists, c, index as int));
            assert(union_of_choice(lists, c, union_so_far, index as int) == union_so_far);
            assert(!some_list_empty(lists, index as int));
        }
        return union_so_far;
    }
    let next: usize = index + 1;
    let list = &deps_lists[index];
    assert(list@ == lists[index as int]);
    let mut min_len: u64 = 65;
    let mut best_deps: u64 = 0;
    let ghost mut best_c: Seq<int> = Seq::empty();
    let mut j: usize = 0;
    while j < list.len()
        invariant
            index < deps_lists@.len(),
            next == index + 1,
            lists == views_of(deps_lists@),
            list@ == lists[index as int],
            j <= list@.len(),
            min_len <= 65,
            j == 0 ==> min_len == 65 && best_deps == 0,
            j > 0 ==> min_len == popcount(best_deps),
            j > 0 && !some_list_empty(lists, index as int + 1) ==> {
                &&& valid_choice(lists, best_c, index as int)
                &&& best_c[index as int] < j
                &&& best_deps == union_of_choice(lists, best_c, union_so_far, index as int)
            },
            j > 0 && some_list_empty(lists, index as int + 1) ==> best_deps == 0,
            !some_list_empty(lists, index as int + 1) ==> forall|c: Seq<int>|
                valid_choice(lists, c, index as int) && c[index as int] < j ==> min_len
                    <= popcount(#[trigger] union_of_choice(lists, c, union_so_far, index as int)),
        decreases list.len() - j,
    {
        let to_check = find_shortest_deps_union(deps_lists, union_so_far | list[j], next);
        let len = count_ones(to_check);
        let ghost u1 = union_so_far | list@[j as int];
        proof {
            if some_list_empty(lists, index as int + 1) {
                assert(to_check == 0);
                lemma_zero_popcount();
            }
        }
        if len < min_len {
            proof {
                if !some_list_empty(lists, index as int + 1) {
                    let c1 = choose|c: Seq<int>|
                        valid_choice(lists, c, index as int + 1) && to_check == #[trigger] union_of_choice(
                            lists,
                            c,
                            u1,
                            index as int + 1,
                        );
                    let nc = c1.update(index as int, j as int);
                    lemma_union_agree(lists, nc, c1, u1, index as int + 1);
                    assert(valid_choice(lists, nc, index as int));
                    best_c = nc;
                }
            }
            min_len = len;
            best_deps = to_check;
        }
        proof {
            if !some_list_empty(lists, index as int + 1) {
                assert forall|c: Seq<int>|
                    valid_choice(lists, c, index as int) && c[index as int] < j + 1 implies min_len
                    <= popcount(#[trigger] union_of_choice(lists, c, union_so_far, index as int)) by {
                    if c[index as int] == j {
                        assert(valid_choice(lists, c, index as int + 1));
                        assert(union_of_choice(lists, c, union_so_far, index as int)
                            == union_of_choice(lists, c, u1, index as int + 1));
                    }
                }
            }
        }
        j = j + 1;
    }
    proof {
        if list@.len() == 0 {
            assert(lists[index as int].len() == 0);
            assert(some_list_empty(lists, index as int));
        }
        if some_list_empty(lists, index as int + 1) {
            let k = choose|k: int| index + 1 <= k < lists.len() && #[trigger] lists[k].len() == 0;
            assert(some_list_empty(lists, index as int));
        }
        if some_list_empty(lists, index as int) && list@.len() > 0 {
            let k = choose|k: int| index <= k < lists.len() && #[trigger] lists[k].len() == 0;
            assert(k != index);
            assert(some_list_empty(lists, index as int + 1));
        }
    }
    best_deps
}

/// The members of the sets that `c` picks from the lists of words from
/// `idx` on.
pub open spec fn choice_members(t: DepsTable, chains: Seq<Seq<u64>>, c: Seq<int>, idx: int) -> Set<int>
    decreases chains.len() - idx,
{
    if idx < 0 || idx >= chains.len() {
        Set::empty()
    } else {
        t.members(chains[idx][c[idx]]).union(choice_members(t, chains, c, idx + 1))
    }
}

/// Every entry of every list is a word of `t` whose set lies within that
/// of `all`, and `lists` holds the packed entries.
pub open spec fn packed_lists(t: DepsTable, chains: Seq<Seq<u64>>, lists: Seq<Seq<u64>>, all: u64) -> bool {
    &&& lists.len() == chains.len()
    &&& forall|a: int| 0 <= a < chains.len() ==> (#[trigger] lists[a]).len() == chains[a].len()
    &&& forall|a: int, j: int|
        0 <= a < chains.len() && 0 <= j < chains[a].len() ==> {
            &&& t.valid(#[trigger] chains[a][j])
            &&& t.members(chains[a][j]).subset_of(t.members(all))
            &&& compressed(t, chains[a][j], all, lists[a][j])
        }
}

/// The packed union of a choice stands for the union of the chosen sets.
pub proof fn lemma_union_of_packed(
    t: DepsTable,
    chains: Seq<Seq<u64>>,
    lists: Seq<Seq<u64>>,
    all: u64,
    c: Seq<int>,
    u: u64,
    idx: int,
)
    requires
        t.wf(),
        t.valid(all),
        t.members(all).len() <= 64,
        packed_lists(t, chains, lists, all),
        valid_choice(lists, c, idx),
        0 <= idx <= lists.len(),
        forall|k: u64| t.member_seq(all).len() <= k < 64 ==> !#[trigger] bit_set(u, k),
    ensures
        expanded(t.member_seq(all), union_of_choice(lists, c, u, idx)) == expanded(
            t.member_seq(all),
            u,
        ).union(choice_members(t, chains, c, idx)),
        forall|k: u64|
            t.member_seq(all).len() <= k < 64 ==> !#[trigger] bit_set(
                union_of_choice(lists, c, u, idx),
                k,
            ),
    decreases lists.len() - idx,
{
    let ms = t.member_seq(all);
    t.lemma_member_seq(all);
    if idx == lists.len() {
        assert(choice_members(t, chains, c, idx) =~= Set::empty());
        assert(expanded(ms, u).union(Set::empty()) =~= expanded(ms, u));
    } else {
        let d = chains[idx][c[idx]];
        let p = lists[idx][c[idx]];
        assert(valid_choice(lists, c, idx + 1));
        lemma_expanded_compressed(t, d, all, p);
        assert forall|k: u64| ms.len() <= k < 64 implies !#[trigger] bit_set(u | p, k) by {
            crate::deps::lemma_or_bits_pub(u, p, k);
        }
        lemma_union_of_packed(t, chains, lists, all, c, u | p, idx + 1);
        lemma_expanded_or(ms, u, p);
        assert(expanded(ms, union_of_choice(lists, c, u, idx)) =~= expanded(ms, u).union(
            choice_members(t, chains, c, idx),
        ));
    }
}

/// The union of a choice has as many members as its packed union has bits.
pub proof fn lemma_choice_count(
    t: DepsTable,
    chains: Seq<Seq<u64>>,
    lists: Seq<Seq<u64>>,
    all: u64,
    c: Seq<int>,
)
    requires
        t.wf(),
        t.valid(all),
        t.members(all).len() <= 64,
        packed_lists(t, chains, lists, all),
        valid_choice(lists, c, 0),
    ensures
        expanded(t.member_seq(all), union_of_choice(lists, c, 0, 0)) == choice_members(t, chains, c, 0),
        choice_members(t, chains, c, 0).finite(),
        popcount(union_of_choice(lists, c, 0, 0)) == choice_members(t, chains, c, 0).len(),
{
    let ms = t.member_seq(all);
    t.lemma_member_seq(all);
    assert forall|k: u64| ms.len() <= k < 64 implies !#[trigger] bit_set(0, k) by {
        assert(0u64 & (1u64 << k) == 0) by (bit_vector);
    }
    assert forall|k: int| 0 <= k < ms.len() implies !#[trigger] bit_set(0, k as u64) by {
        assert(0u64 & (1u64 << (k as u64)) == 0) by (bit_vector);
    }
    assert(expanded(ms, 0) =~= Set::empty());
    lemma_union_of_packed(t, chains, lists, all, c, 0, 0);
    assert(Set::<int>::empty().union(choice_members(t, chains, c, 0)) =~= choice_members(t, chains, c, 0));
    lemma_popcount_expanded(ms, union_of_choice(lists, c, 0, 0));
}

/// A grown table keeps the members of a choice.
pub proof fn lemma_choice_members_grown(
    t1: DepsTable,
    t2: DepsTable,
    chains: Seq<Seq<u64>>,
    c: Seq<int>,
    idx: int,
)
    requires
        t1@.is_prefix_of(t2@),
        valid_choice(chains, c, idx),
        forall|a: int, j: int| 0 <= a < chains.len() && 0 <= j < chains[a].len() ==> t1.valid(#[trigger] chains[a][j]),
    ensures
        choice_members(t1, chains, c, idx) == choice_members(t2, chains, c, idx),
    decreases chains.len() - idx,
{
    if 0 <= idx < chains.len() {
        t1.lemma_grown(t2, chains[idx][c[idx]]);
        lemma_choice_members_grown(t1, t2, chains, c, idx + 1);
    }
}

proof fn lemma_zero_popcount()
    ensures
        popcount(0) == 0,
{
    assert forall|i: int| 0 <= i < 64 implies !#[trigger] crate::deps::bit_set(0, i as u64) by {
        assert(0u64 & (1u64 << (i as u64)) == 0) by (bit_vector);
    }
    assert(crate::deps::low_members_below(0, 64) =~= Set::empty());
}

} // verus!
