//! Candidate construction steps, the order in which they are explored, and
//! their heuristic score.
use vstd::prelude::*;
use crate::deps::{low_count, low_members};
use crate::problems::{ActionType, group_of, type_rank};

verus! {

/// A candidate step: its score, the size of its inputs' dependency set, the
/// shape it yields, its kind and the indices of its inputs (points first; the
/// extra index is a third point or a line, `-1` where unused).
#[derive(Clone, Copy)]
pub struct Action<S> {
    pub priority: i64,
    pub deps_count: u32,
    pub shape: S,
    pub action_type: ActionType,
    pub point_index_1: i32,
    pub point_index_2: i32,
    pub extra_index: i32,
}

/// The place of an action in the exploration order: by priority, then by
/// each input index reversed (lower indices first), then by kind reversed.
/// Each part below the priority lies in `0..2^33`, so comparing keys compares
/// the parts lexicographically.
#[verifier::opaque]
pub open spec fn order_key<S>(a: Action<S>) -> int {
    a.priority as int * 0x10_0000_0000_0000_0000_0000_0000_0000_0000int
        + (0x8000_0000 - a.point_index_1 as int) * 0x8_0000_0000_0000_0000_0000_0000int
        + (0x8000_0000 - a.point_index_2 as int) * 0x4_0000_0000_0000_0000int
        + (0x8000_0000 - a.extra_index as int) * 0x2_0000_0000int
        + (32 - type_rank(a.action_type))
}

impl<S> Action<S> {
    /// `self` is explored after `other`.
    pub fn precedes(&self, other: &Action<S>) -> (r: bool)
        ensures
            r == (order_key(*self) < order_key(*other)),
    {
        let ra = self.action_type.rank();
        let rb = other.action_type.rank();
        proof {
            reveal(order_key);
            lemma_rank_bound(self.action_type);
            lemma_rank_bound(other.action_type);
        }
        if self.priority != other.priority {
            self.priority < other.priority
        } else if self.point_index_1 != other.point_index_1 {
            self.point_index_1 > other.point_index_1
        } else if self.point_index_2 != other.point_index_2 {
            self.point_index_2 > other.point_index_2
        } else if self.extra_index != other.extra_index {
            self.extra_index > other.extra_index
        } else {
            ra > rb
        }
    }

    /// The indices of the points the step starts from.
    pub fn get_point_indices(&self) -> (r: Vec<i32>)
        ensures
            r@ == match self.action_type {
                ActionType::TwoPointActionType(_) => seq![self.point_index_1, self.point_index_2],
                ActionType::PointAndLineActionType(_) => seq![self.point_index_1],
                ActionType::ThreePointActionType(_) => seq![
                    self.point_index_1,
                    self.point_index_2,
                    self.extra_index,
                ],
                ActionType::TwoPointAndLineActionType(_) => seq![
                    self.point_index_1,
                    self.point_index_2,
                ],
            },
    {
        let r = match self.action_type {
            ActionType::TwoPointActionType(_) => vec![self.point_index_1, self.point_index_2],
            ActionType::PointAndLineActionType(_) => vec![self.point_index_1],
            ActionType::ThreePointActionType(_) => vec![
                self.point_index_1,
                self.point_index_2,
                self.extra_index,
            ],
            ActionType::TwoPointAndLineActionType(_) => vec![
                self.point_index_1,
                self.point_index_2,
            ],
        };
        proof {
            match self.action_type {
                ActionType::TwoPointActionType(_) => {
                    assert(r@ =~= seq![self.point_index_1, self.point_index_2]);
                },
                ActionType::PointAndLineActionType(_) => {
                    assert(r@ =~= seq![self.point_index_1]);
                },
                ActionType::ThreePointActionType(_) => {
                    assert(r@ =~= seq![self.point_index_1, self.point_index_2, self.extra_index]);
                },
                ActionType::TwoPointAndLineActionType(_) => {
                    assert(r@ =~= seq![self.point_index_1, self.point_index_2]);
                },
            }
        }
        r
    }

    /// The indices of the lines the step starts from.
    pub fn get_shape_indices(&self) -> (r: Vec<i32>)
        ensures
            r@ == match self.action_type {
                ActionType::PointAndLineActionType(_) => seq![self.extra_index],
                ActionType::TwoPointAndLineActionType(_) => seq![self.extra_index],
                _ => Seq::<i32>::empty(),
            },
    {
        let r = match self.action_type {
            ActionType::PointAndLineActionType(_) => vec![self.extra_index],
            ActionType::TwoPointAndLineActionType(_) => vec![self.extra_index],
            _ => Vec::new(),
        };
        proof {
            match self.action_type {
                ActionType::PointAndLineActionType(_) => {
                    assert(r@ =~= seq![self.extra_index]);
                },
                ActionType::TwoPointAndLineActionType(_) => {
                    assert(r@ =~= seq![self.extra_index]);
                },
                _ => {
                    assert(r@ =~= Seq::<i32>::empty());
                },
            }
        }
        r
    }

    /// The position of the step within its group.
    pub fn get_action_index(&self) -> (r: usize)
        ensures
            r == crate::problems::index_in_group(self.action_type),
    {
        self.action_type.get_action_index()
    }
}

proof fn lemma_rank_bound(t: ActionType)
    ensures
        type_rank(t) < 32,
{
}

/// Candidate steps in a binary max-heap by exploration order: no action
/// comes earlier than its children, so the first one comes no earlier than
/// any.
pub struct ActionQueue<S> {
    items: Vec<Action<S>>,
}

impl<S> View for ActionQueue<S> {
    type V = Seq<Action<S>>;

    closed spec fn view(&self) -> Seq<Action<S>> {
        self.items@
    }
}

/// No action comes earlier than its children.
pub open spec fn heap_ordered<S>(s: Seq<Action<S>>) -> bool {
    forall|j: int| 0 < j < s.len() ==> order_key(#[trigger] s[j]) <= order_key(s[(j - 1) / 2])
}

/// `after` holds the actions of `before` but `x`, which comes no earlier
/// than any of them.
pub open spec fn popped<S>(before: Seq<Action<S>>, after: Seq<Action<S>>, x: Action<S>) -> bool {
    &&& before.len() > 0
    &&& after.to_multiset() == before.to_multiset().remove(x)
    &&& before.to_multiset().count(x) > 0
    &&& forall|k: int| 0 <= k < after.len() ==> order_key(#[trigger] after[k]) <= order_key(x)
}

/// An action popped from the queue has at least the priority of every
/// action that stays in it.
pub proof fn law_pop_order<S>(
    before: Seq<Action<S>>,
    after: Seq<Action<S>>,
    x: Action<S>,
    y: Action<S>,
)
    requires
        popped(before, after, x),
        after.contains(y),
    ensures
        x.priority >= y.priority,
{
    let k = choose|k: int| 0 <= k < after.len() && after[k] == y;
    assert(order_key(after[k]) <= order_key(x));
    reveal(order_key);
    lemma_rank_bound(x.action_type);
    lemma_rank_bound(y.action_type);
}

/// The first action of a heap comes no earlier than any other.
proof fn lemma_heap_top<S>(s: Seq<Action<S>>, j: int)
    requires
        heap_ordered(s),
        0 <= j < s.len(),
    ensures
        order_key(s[j]) <= order_key(s[0]),
    decreases j,
{
    if j > 0 {
        lemma_heap_top(s, (j - 1) / 2);
    }
}

/// Moves the first action down past its larger child until no action comes
/// earlier than its children.
fn sift_down<S: Copy>(items: &mut Vec<Action<S>>)
    requires
        old(items)@.len() > 0,
        forall|j: int|
            0 < j < old(items)@.len() && (j - 1) / 2 != 0 ==> order_key(#[trigger] old(items)@[j])
                <= order_key(old(items)@[(j - 1) / 2]),
    ensures
        final(items)@.len() == old(items)@.len(),
        final(items)@.to_multiset() == old(items)@.to_multiset(),
        heap_ordered(final(items)@),
{
    let mut i: usize = 0;
    loop
        invariant
            i < items@.len(),
            items@.len() == old(items)@.len(),
            items@.to_multiset() == old(items)@.to_multiset(),
            forall|j: int|
                0 < j < items@.len() && (j - 1) / 2 != i ==> order_key(
                    #[trigger] items@[j],
                ) <= order_key(items@[(j - 1) / 2]),
            i > 0 ==> forall|c: int|
                0 < c < items@.len() && (c - 1) / 2 == i ==> order_key(
                    #[trigger] items@[c],
                ) <= order_key(items@[(i - 1) / 2]),
        ensures
            items@.len() == old(items)@.len(),
            items@.to_multiset() == old(items)@.to_multiset(),
            heap_ordered(items@),
        decreases items@.len() - i,
    {
        let n = items.len();
        if i >= n / 2 {
            proof {
                lemma_heap_settled(items@, i as int);
            }
            break;
        }
        let l = 2 * i + 1;
        let r = 2 * i + 2;
        let mut m = i;
        if items[m].precedes(&items[l]) {
            m = l;
        }
        if r < n && items[m].precedes(&items[r]) {
            m = r;
        }
        proof {
            lemma_children(items@, i as int, m as int);
        }
        if m == i {
            proof {
                lemma_heap_settled(items@, i as int);
            }
            break;
        }
        let xi = items[i];
        let xm = items[m];
        let ghost s = items@;
        items.set(i, xm);
        items.set(m, xi);
        proof {
            lemma_swap_multiset(s, i as int, m as int);
            assert(items@ == s.update(i as int, s[m as int]).update(m as int, s[i as int]));
            lemma_sift_down_step(s, i as int, m as int);
        }
        i = m;
    }
}

/// The children of `i` are `2i + 1` and `2i + 2`; where both come no later
/// than `m`, every child does.
proof fn lemma_children<S>(s: Seq<Action<S>>, i: int, m: int)
    requires
        0 <= i,
        0 <= m < s.len(),
        2 * i + 1 < s.len() ==> order_key(s[2 * i + 1]) <= order_key(s[m]),
        2 * i + 2 < s.len() ==> order_key(s[2 * i + 2]) <= order_key(s[m]),
    ensures
        forall|c: int| 0 < c < s.len() && (c - 1) / 2 == i ==> order_key(#[trigger] s[c]) <= order_key(s[m]),
{
    assert forall|c: int| 0 < c < s.len() && (c - 1) / 2 == i implies order_key(#[trigger] s[c]) <= order_key(s[m]) by {
        assert(c == 2 * i + 1 || c == 2 * i + 2);
    }
}

/// Where the only place the heap may be out of order is between `i` and
/// its children, and they come no later than `i`, the heap is in order.
proof fn lemma_heap_settled<S>(s: Seq<Action<S>>, i: int)
    requires
        0 <= i < s.len(),
        forall|j: int| 0 < j < s.len() && (j - 1) / 2 != i ==> order_key(#[trigger] s[j]) <= order_key(s[(j - 1) / 2]),
        2 * i + 1 < s.len() ==> order_key(s[2 * i + 1]) <= order_key(s[i]),
        2 * i + 2 < s.len() ==> order_key(s[2 * i + 2]) <= order_key(s[i]),
    ensures
        heap_ordered(s),
{
    assert forall|j: int| 0 < j < s.len() implies order_key(#[trigger] s[j]) <= order_key(s[(j - 1) / 2]) by {
        if (j - 1) / 2 == i {
            assert(j == 2 * i + 1 || j == 2 * i + 2);
        }
    }
}

/// Swapping an action with its larger child moves the one place where the
/// heap may be out of order down to that child.
proof fn lemma_sift_down_step<S>(s: Seq<Action<S>>, i: int, m: int)
    requires
        0 <= i < m < s.len(),
        (m - 1) / 2 == i,
        order_key(s[i]) < order_key(s[m]),
        forall|c: int| 0 < c < s.len() && (c - 1) / 2 == i ==> order_key(#[trigger] s[c]) <= order_key(s[m]),
        forall|j: int|
            0 < j < s.len() && (j - 1) / 2 != i ==> order_key(#[trigger] s[j]) <= order_key(s[(j - 1) / 2]),
        i > 0 ==> forall|c: int|
            0 < c < s.len() && (c - 1) / 2 == i ==> order_key(#[trigger] s[c]) <= order_key(s[(i - 1) / 2]),
    ensures
        ({
            let t = s.update(i, s[m]).update(m, s[i]);
            &&& forall|j: int|
                0 < j < t.len() && (j - 1) / 2 != m ==> order_key(#[trigger] t[j]) <= order_key(t[(j - 1) / 2])
            &&& forall|c: int|
                0 < c < t.len() && (c - 1) / 2 == m ==> order_key(#[trigger] t[c]) <= order_key(t[(m - 1) / 2])
        }),
{
    let t = s.update(i, s[m]).update(m, s[i]);
    assert forall|j: int| 0 < j < t.len() && (j - 1) / 2 != m implies order_key(#[trigger] t[j])
        <= order_key(t[(j - 1) / 2]) by {
        if j == m {
        } else if (j - 1) / 2 == i {
            assert(order_key(s[j]) <= order_key(s[m]));
        } else if j == i {
            assert(order_key(s[m]) <= order_key(s[(i - 1) / 2]));
        } else {
            assert(t[j] == s[j]);
        }
    }
    assert forall|c: int| 0 < c < t.len() && (c - 1) / 2 == m implies order_key(#[trigger] t[c])
        <= order_key(t[(m - 1) / 2]) by {
        assert(order_key(s[c]) <= order_key(s[m]));
    }
}

proof fn lemma_swap_multiset<A>(s: Seq<A>, i: int, j: int)
    requires
        0 <= i < s.len(),
        0 <= j < s.len(),
    ensures
        s.update(i, s[j]).update(j, s[i]).to_multiset() == s.to_multiset(),
{
    broadcast use vstd::multiset::group_multiset_axioms, vstd::multiset::group_multiset_properties;

    vstd::seq_lib::to_multiset_update(s, i, s[j]);
    let t = s.update(i, s[j]);
    vstd::seq_lib::to_multiset_update(t, j, s[i]);
    assert(s.to_multiset().count(s[j]) > 0) by {
        vstd::seq_lib::to_multiset_contains(s, s[j]);
        assert(s.contains(s[j]));
    }
    assert(s.to_multiset().count(s[i]) > 0) by {
        vstd::seq_lib::to_multiset_contains(s, s[i]);
        assert(s.contains(s[i]));
    }
    let m = s.to_multiset();
    let m1 = m.insert(s[j]).remove(s[i]);
    assert(t[j] == s[j]);
    assert(m1.count(s[i]) + 1 == m.count(s[i]) + (if s[i] == s[j] { 1int } else { 0 }));
    assert(m1.insert(s[i]).remove(s[j]) =~= m);
    assert(t.update(j, s[i]).to_multiset() =~= s.to_multiset());
}

impl<S: Copy> ActionQueue<S> {
    pub open spec fn wf(&self) -> bool {
        heap_ordered(self@)
    }

    pub fn new() -> (r: Self)
        ensures
            r.wf(),
            r@ == Seq::<Action<S>>::empty(),
    {
        ActionQueue { items: Vec::new() }
    }

    pub fn len(&self) -> (r: usize)
        ensures
            r == self@.len(),
    {
        self.items.len()
    }

    pub fn is_empty(&self) -> (r: bool)
        ensures
            r == (self@.len() == 0),
    {
        self.items.len() == 0
    }

    /// Adds an action, moving it up past the ones that come earlier.
    pub fn push(&mut self, a: Action<S>)
        requires
            old(self).wf(),
        ensures
            final(self).wf(),
            final(self)@.to_multiset() == old(self)@.to_multiset().insert(a),
            final(self)@.len() == old(self)@.len() + 1,
    {
        broadcast use vstd::seq_lib::group_to_multiset_ensures;

        self.items.push(a);
        let mut i: usize = self.items.len() - 1;
        while i > 0
            invariant
                i < self.items@.len(),
                self.items@.len() == old(self)@.len() + 1,
                self.items@.to_multiset() == old(self)@.to_multiset().insert(a),
                forall|j: int|
                    0 < j < self.items@.len() && j != i ==> order_key(#[trigger] self.items@[j])
                        <= order_key(self.items@[(j - 1) / 2]),
                i > 0 ==> forall|c: int|
                    0 < c < self.items@.len() && (c - 1) / 2 == i ==> order_key(
                        #[trigger] self.items@[c],
                    ) <= order_key(self.items@[(i - 1) / 2]),
            ensures
                self.items@.to_multiset() == old(self)@.to_multiset().insert(a),
                self.items@.len() == old(self)@.len() + 1,
                heap_ordered(self.items@),
            decreases i,
        {
            let p = (i - 1) / 2;
            let xi = self.items[i];
            let xp = self.items[p];
            if xp.precedes(&xi) {
                let ghost s = self.items@;
                self.items.set(p, xi);
                self.items.set(i, xp);
                proof {
                    lemma_swap_multiset(s, p as int, i as int);
                    assert(self.items@ == s.update(p as int, s[i as int]).update(i as int, s[p as int]));
                    let t = self.items@;
                    assert forall|j: int| 0 < j < t.len() && j != p implies order_key(#[trigger] t[j])
                        <= order_key(t[(j - 1) / 2]) by {
                        if j == i {
                        } else if (j - 1) / 2 == i {
                            assert(order_key(s[j]) <= order_key(s[(i - 1) / 2]));
                        } else if (j - 1) / 2 == p {
                            assert(order_key(s[j]) <= order_key(s[p as int]));
                        } else {
                            assert(t[j] == s[j]);
                        }
                    }
                    if p > 0 {
                        assert forall|c: int|
                            0 < c < t.len() && (c - 1) / 2 == p implies order_key(#[trigger] t[c])
                            <= order_key(t[(p - 1) / 2]) by {
                            assert(order_key(s[p as int]) <= order_key(s[(p - 1) / 2]));
                            if c != i {
                                assert(order_key(s[c]) <= order_key(s[p as int]));
                            }
                        }
                    }
                }
                i = p;
            } else {
                assert(heap_ordered(self.items@));
                break;
            }
        }
    }

    /// Takes out the first action, one that comes no earlier than any
    /// other, and restores the heap.
    pub fn pop(&mut self) -> (r: Option<Action<S>>)
        requires
            old(self).wf(),
        ensures
            final(self).wf(),
            old(self)@.len() == 0 ==> r is None && final(self)@ == old(self)@,
            old(self)@.len() > 0 ==> (r matches Some(x) && x == old(self)@[0] && popped(
                old(self)@,
                final(self)@,
                x,
            )),
            old(self)@.len() > 0 ==> final(self)@.len() == old(self)@.len() - 1,
    {
        broadcast use vstd::seq_lib::group_to_multiset_ensures;
        broadcast use vstd::multiset::group_multiset_axioms, vstd::multiset::group_multiset_properties;

        if self.items.len() == 0 {
            return None;
        }
        let top = self.items[0];
        let ghost s0 = self.items@;
        let last = self.items.pop().unwrap();
        proof {
            assert(s0.remove(s0.len() - 1) =~= s0.drop_last());
            assert(s0.contains(top)) by {
                assert(s0[0] == top);
            }
        }
        if self.items.len() > 0 {
            let ghost s1 = self.items@;
            self.items.set(0, last);
            proof {
                assert(self.items@.to_multiset() =~= s0.to_multiset().remove(top)) by {
                    vstd::seq_lib::to_multiset_update(s1, 0, last);
                    assert(s0.contains(last)) by {
                        assert(s0[s0.len() - 1] == last);
                    }
                }
                let t = self.items@;
                assert forall|j: int| 0 < j < t.len() && (j - 1) / 2 != 0 implies order_key(#[trigger] t[j])
                    <= order_key(t[(j - 1) / 2]) by {
                    assert(t[j] == s0[j]);
                    assert(t[(j - 1) / 2] == s0[(j - 1) / 2]);
                }
            }
            sift_down(&mut self.items);
        } else {
            proof {
                assert(self.items@.to_multiset() =~= s0.to_multiset().remove(top));
            }
        }
        proof {
            let t = self.items@;
            assert forall|k: int| 0 <= k < t.len() implies order_key(#[trigger] t[k]) <= order_key(top) by {
                assert(t.contains(t[k]));
                assert(t.to_multiset().count(t[k]) > 0);
                assert(s0.to_multiset().count(t[k]) > 0);
                assert(s0.contains(t[k]));
                let q = choose|q: int| 0 <= q < s0.len() && s0[q] == t[k];
                lemma_heap_top(s0, q);
            }
            assert(s0.to_multiset().count(top) > 0);
        }
        Some(top)
    }

    /// The priority of the next action to explore.
    pub fn peek_priority(&self) -> (r: Option<i64>)
        ensures
            self@.len() == 0 ==> r is None,
            self@.len() > 0 ==> r == Some(self@[0].priority),
    {
        if self.items.len() == 0 {
            None
        } else {
            Some(self.items[0].priority)
        }
    }

    /// Keeps only the `n` actions that come first in the exploration order:
    /// none dropped comes later than one kept.
    pub fn keep_top(&mut self, n: usize)
        requires
            old(self).wf(),
        ensures
            final(self).wf(),
            final(self)@.len() == if old(self)@.len() < n { old(self)@.len() as int } else { n as int },
            final(self)@.to_multiset().subset_of(old(self)@.to_multiset()),
            forall|x: Action<S>, y: Action<S>|
                #![trigger final(self)@.to_multiset().count(x), old(self)@.to_multiset().count(y)]
                final(self)@.to_multiset().count(x) > 0 && old(self)@.to_multiset().difference_with(
                    final(self)@.to_multiset(),
                ).count(y) > 0 ==> order_key(y) <= order_key(x),
    {
        broadcast use vstd::seq_lib::group_to_multiset_ensures;
        broadcast use vstd::multiset::group_multiset_axioms, vstd::multiset::group_multiset_properties;

        let mut kept: ActionQueue<S> = ActionQueue::new();
        let mut k: usize = 0;
        let ghost m0 = self@.to_multiset();
        while k < n && !self.is_empty()
            invariant
                kept.wf(),
                self.wf(),
                m0 == old(self)@.to_multiset(),
                kept@.len() == k,
                kept@.len() + self@.len() == old(self)@.len(),
                k <= n,
                kept@.to_multiset().add(self@.to_multiset()) == m0,
                forall|x: Action<S>, y: Action<S>|
                    kept@.to_multiset().count(x) > 0 && self@.to_multiset().count(y) > 0 ==> order_key(y)
                        <= order_key(x),
            decreases old(self)@.len() - k,
        {
            let ghost before = self@;
            let x = self.pop().unwrap();
            let ghost kb = kept@;
            kept.push(x);
            proof {
                assert(kept@.to_multiset() =~= kb.to_multiset().insert(x));
                assert(kept@.to_multiset().add(self@.to_multiset()) =~= m0);
                assert forall|a: Action<S>, b: Action<S>|
                    kept@.to_multiset().count(a) > 0 && self@.to_multiset().count(b) > 0 implies order_key(b)
                        <= order_key(a) by {
                    assert(before.to_multiset().count(b) > 0);
                    if a != x {
                        assert(kb.to_multiset().count(a) > 0);
                    } else {
                        vstd::seq_lib::to_multiset_contains(self@, b);
                        assert(self@.contains(b));
                        let q = choose|q: int| 0 <= q < self@.len() && self@[q] == b;
                        assert(order_key(self@[q]) <= order_key(x));
                    }
                }
                vstd::seq_lib::to_multiset_len(old(self)@);
            }
            k = k + 1;
        }
        proof {
            vstd::seq_lib::to_multiset_len(old(self)@);
            vstd::seq_lib::to_multiset_len(self@);
            vstd::seq_lib::to_multiset_len(kept@);
            assert(kept@.to_multiset().len() + self@.to_multiset().len() == old(self)@.len());
            if kept@.len() < n {
                assert(self@.len() == 0);
            }
            assert(old(self)@.to_multiset().difference_with(kept@.to_multiset()) =~= self@.to_multiset());
            assert(kept@.to_multiset().subset_of(old(self)@.to_multiset()));
        }
        *self = kept;
    }
}

/// The queue size past which it is cut down.
pub const QUEUE_LIMIT: usize = 100_000_000;

/// The number of actions kept when the queue is cut down.
pub const QUEUE_KEPT: usize = 49_999;

impl<S: Copy> ActionQueue<S> {
    /// Cuts the queue down to its `QUEUE_KEPT` best actions once it holds
    /// more than `QUEUE_LIMIT`; a deliberate loss that bounds memory.
    pub fn cull(&mut self)
        requires
            old(self).wf(),
        ensures
            final(self).wf(),
            old(self)@.len() <= QUEUE_LIMIT ==> final(self)@ == old(self)@,
            old(self)@.len() > QUEUE_LIMIT ==> final(self)@.len() == QUEUE_KEPT,
            final(self)@.to_multiset().subset_of(old(self)@.to_multiset()),
            forall|x: Action<S>, y: Action<S>|
                #![trigger final(self)@.to_multiset().count(x), old(self)@.to_multiset().count(y)]
                final(self)@.to_multiset().count(x) > 0 && old(self)@.to_multiset().difference_with(
                    final(self)@.to_multiset(),
                ).count(y) > 0 ==> order_key(y) <= order_key(x),
    {
        broadcast use vstd::multiset::group_multiset_axioms, vstd::multiset::group_multiset_properties;

        if self.len() > QUEUE_LIMIT {
            self.keep_top(QUEUE_KEPT);
        } else {
            proof {
                assert(self@.to_multiset().difference_with(self@.to_multiset()) =~= vstd::multiset::Multiset::empty());
            }
        }
    }
}

/// Inputs that need `deps_count` steps, with the target shapes of
/// `found_shape_mask` found along their lineage, still leave room in the
/// budget for one step towards each target shape not yet found.
pub open spec fn within_budget_spec(
    deps_count: u32,
    found_shape_mask: u32,
    target_shape_count: u32,
    action_count: u32,
) -> bool {
    deps_count + target_shape_count - low_members(found_shape_mask as u64).len() <= action_count
}

/// Whether inputs that need `deps_count` steps are worth combining.
pub fn within_budget(
    deps_count: u32,
    found_shape_mask: u32,
    target_shape_count: u32,
    action_count: u32,
) -> (r: bool)
    ensures
        r == within_budget_spec(deps_count, found_shape_mask, target_shape_count, action_count),
{
    let found = low_count(found_shape_mask as u64) as i64;
    deps_count as i64 + target_shape_count as i64 - found <= action_count as i64
}

/// What the search does with a step taken off the queue, once its score
/// has been computed again.
#[derive(Debug, Clone, Copy, PartialEq, Eq, Structural)]
pub enum PopDecision {
    /// The step cannot lead to a solution any more: it is dropped.
    Skip,
    /// The score changed: the step goes back into the queue with it.
    Requeue(i64),
    /// The step is carried out.
    Apply,
}

/// A step whose inputs need `deps_count` steps is left to the random walks
/// where they take over at `n` steps and it is two short of them.
pub fn defer_to_random_walk(deps_count: u32, random_walk_at_n_actions: Option<u32>) -> (r: bool)
    ensures
        r == (random_walk_at_n_actions matches Some(n) && deps_count + 2 == n),
{
    match random_walk_at_n_actions {
        Some(n) => deps_count as u64 + 2 == n as u64,
        None => false,
    }
}

/// Decides on a popped step from its stored and its recomputed score.
pub fn decide_popped(stored: i64, recomputed: i64) -> (r: PopDecision)
    ensures
        recomputed < 0 ==> r == PopDecision::Skip,
        recomputed >= 0 && recomputed != stored ==> r == PopDecision::Requeue(recomputed),
        recomputed >= 0 && recomputed == stored ==> r == PopDecision::Apply,
{
    if recomputed < 0 {
        PopDecision::Skip
    } else if recomputed != stored {
        PopDecision::Requeue(recomputed)
    } else {
        PopDecision::Apply
    }
}

/// What the score of a step is computed from. The counts are gathered by
/// the caller from the shapes and points involved.
pub struct PriorityInputs {
    pub action_type: ActionType,
    /// The size of the union of the inputs' dependency sets.
    pub deps_count: u32,
    /// The budget of steps.
    pub action_count: u32,
    pub random_walk_at_n_actions: Option<u32>,
    /// The number of target shapes.
    pub target_shape_count: u32,
    /// The target shapes already found along the inputs' lineage, with the
    /// result itself where it is a target.
    pub found_shape_mask: u32,
    pub prioritize_low_action_count_shapes: bool,
    pub find_all_solutions: bool,
    /// Input points that are found target points.
    pub found_parent_points: u32,
    /// The input line is a found target shape.
    pub parent_line_found: bool,
    /// Pairs of a target shape still to find and an input point on it.
    pub parent_points_on_targets: u32,
    /// Pairs of a found target shape and an input point on it.
    pub parent_points_on_found_shapes: u32,
    /// Target points still to find on the input line.
    pub targets_on_parent_line: u32,
    /// The result is a target shape still to find.
    pub shape_is_target: bool,
    /// The result is a found target shape.
    pub shape_is_found: bool,
    /// Target points still to find on the result.
    pub target_points_on_shape: u32,
    /// Found target points on the result.
    pub found_points_on_shape: u32,
}

/// The step starts from a line.
pub open spec fn uses_line(t: ActionType) -> bool {
    group_of(t) == 1 || group_of(t) == 3
}

/// The step lies beyond the point where random walks take over.
pub open spec fn past_random_walk(p: PriorityInputs) -> bool {
    match p.random_walk_at_n_actions {
        Some(n) => if group_of(p.action_type) == 1 {
            p.deps_count >= n
        } else {
            p.deps_count + 1 >= n
        },
        None => false,
    }
}

/// Target shapes that some later step still has to produce.
pub open spec fn reserved_steps(p: PriorityInputs) -> int {
    p.target_shape_count - low_members(p.found_shape_mask as u64).len()
}

/// The score of a step, `-1` where it cannot lead to a solution within the
/// budget (its own step counts one on top of its inputs' dependencies).
pub open spec fn priority_of(p: PriorityInputs) -> int {
    if past_random_walk(p) || p.deps_count + reserved_steps(p) >= p.action_count {
        -1
    } else {
        2 * (p.action_count - p.deps_count) + (if p.deps_count <= 2
            && p.prioritize_low_action_count_shapes {
            50 * (3 - p.deps_count)
        } else {
            0
        }) + p.found_parent_points + (if uses_line(p.action_type) && p.parent_line_found {
            1int
        } else {
            0
        }) + 5 * p.parent_points_on_targets + (if uses_line(p.action_type) {
            5 * p.targets_on_parent_line
        } else {
            0
        }) + (if p.shape_is_target {
            20int
        } else {
            0
        }) + 5 * p.target_points_on_shape + (if group_of(p.action_type) == 0
            && p.find_all_solutions {
            5 * p.parent_points_on_found_shapes + (if p.shape_is_found {
                20int
            } else {
                0
            }) + 5 * p.found_points_on_shape
        } else {
            0
        })
    }
}

/// The score of a step.
pub fn compute_priority(p: &PriorityInputs) -> (r: i64)
    ensures
        r == priority_of(*p),
{
    let found = low_count(p.found_shape_mask as u64) as i64;
    let reserved: i64 = p.target_shape_count as i64 - found;
    let deps = p.deps_count as i64;
    let group: u32 = match p.action_type {
        ActionType::TwoPointActionType(_) => 0,
        ActionType::PointAndLineActionType(_) => 1,
        ActionType::ThreePointActionType(_) => 2,
        ActionType::TwoPointAndLineActionType(_) => 3,
    };
    let past = match p.random_walk_at_n_actions {
        Some(n) => if group == 1 {
            deps >= n as i64
        } else {
            deps + 1 >= n as i64
        },
        None => false,
    };
    if past || deps + reserved >= p.action_count as i64 {
        return -1;
    }
    let mut priority: i64 = 2 * (p.action_count as i64 - deps);
    if deps <= 2 && p.prioritize_low_action_count_shapes {
        priority = priority + 50 * (3 - deps);
    }
    priority = priority + p.found_parent_points as i64;
    let line = group == 1 || group == 3;
    if line && p.parent_line_found {
        priority = priority + 1;
    }
    priority = priority + 5 * p.parent_points_on_targets as i64;
    if line {
        priority = priority + 5 * p.targets_on_parent_line as i64;
    }
    if p.shape_is_target {
        priority = priority + 20;
    }
    priority = priority + 5 * p.target_points_on_shape as i64;
    if group == 0 && p.find_all_solutions {
        priority = priority + 5 * p.parent_points_on_found_shapes as i64;
        if p.shape_is_found {
            priority = priority + 20;
        }
        priority = priority + 5 * p.found_points_on_shape as i64;
    }
    priority
}

} // verus!
