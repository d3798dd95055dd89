//! Sets and maps whose elements carry two hashes. An element is looked up in
//! the bucket of its first hash, then in the bucket of its second, and matches
//! a stored element that it reports itself equal to. Elements that may compare
//! equal across a bucket border then still meet in one of the two buckets.
use vstd::prelude::*;
use std::collections::HashMap;

verus! {

broadcast use vstd::std_specs::hash::group_hash_axioms;

/// An element with two bucket hashes and its own notion of equality.
/// The hashes and the equality are functions of the values alone.
pub trait WithTwoHashes: Sized + Copy {
    /// The first bucket hash.
    spec fn spec_hash1(&self) -> u64;

    /// The second bucket hash.
    spec fn spec_hash2(&self) -> u64;

    /// `self` reports itself equal to `other`.
    spec fn spec_same(&self, other: &Self) -> bool;

    fn hash1(&self) -> (r: u64)
        ensures
            r == self.spec_hash1(),
    ;

    fn hash2(&self) -> (r: u64)
        ensures
            r == self.spec_hash2(),
    ;

    fn same_as(&self, other: &Self) -> (r: bool)
        ensures
            r == self.spec_same(other),
    ;
}

/// The key that bucket map `first` (the first or the second) files `e` under.
pub open spec fn key_of<T: WithTwoHashes>(e: T, first: bool) -> u64 {
    if first {
        e.spec_hash1()
    } else {
        e.spec_hash2()
    }
}

/// A stored element `e` matches `value`: they share a bucket and `value`
/// reports itself equal to `e`.
pub open spec fn matches<T: WithTwoHashes>(value: T, e: T) -> bool {
    &&& (e.spec_hash1() == value.spec_hash1() || e.spec_hash2() == value.spec_hash2())
    &&& value.spec_same(&e)
}

/// `e` is listed in `r`, or some element of `r` reports itself equal to it.
pub open spec fn covered<T: WithTwoHashes>(r: Seq<T>, e: T) -> bool {
    exists|k: int| 0 <= k < r.len() && (r[k] == e || r[k].spec_same(&e))
}

/// Some stored element matches `value`.
pub open spec fn has_match<T: WithTwoHashes>(keys: Seq<T>, value: T) -> bool {
    exists|i: int| 0 <= i < keys.len() && matches(value, #[trigger] keys[i])
}

/// The bucket map files each stored position under its key, and holds
/// nothing else.
pub open spec fn buckets_ok<T: WithTwoHashes>(m: Map<u64, Vec<usize>>, keys: Seq<T>, first: bool) -> bool {
    &&& forall|h: u64, k: int|
        #![trigger m[h]@[k]]
        m.contains_key(h) && 0 <= k < m[h]@.len() ==> m[h]@[k] < keys.len() && key_of(
            keys[m[h]@[k] as int],
            first,
        ) == h
    &&& forall|i: int|
        #![trigger keys[i]]
        0 <= i < keys.len() ==> m.contains_key(key_of(keys[i], first)) && m[key_of(
            keys[i],
            first,
        )]@.contains(i as usize)
}

/// Adds index `i` to the bucket of `h`.
fn add_to_bucket(m: &mut HashMap<u64, Vec<usize>>, h: u64, i: usize)
    ensures
        final(m)@.contains_key(h),
        final(m)@[h]@ == (if old(m)@.contains_key(h) {
            old(m)@[h]@
        } else {
            Seq::empty()
        }).push(i),
        forall|g: u64| g != h ==> (#[trigger] final(m)@.contains_key(g)) == old(m)@.contains_key(g),
        forall|g: u64| g != h && old(m)@.contains_key(g) ==> #[trigger] final(m)@[g] == old(m)@[g],
{
    let bucket = m.remove(&h);
    match bucket {
        Some(ids) => {
            let mut ids = ids;
            ids.push(i);
            m.insert(h, ids);
        },
        None => {
            m.insert(h, vec![i]);
            assert(m@[h]@ =~= seq![i]);
        },
    }
}

/// Filing a new last element keeps the bucket map in order.
proof fn lemma_bucket_push<T: WithTwoHashes>(
    m0: Map<u64, Vec<usize>>,
    m1: Map<u64, Vec<usize>>,
    keys: Seq<T>,
    x: T,
    first: bool,
)
    requires
        keys.len() <= usize::MAX,
        buckets_ok(m0, keys, first),
        m1.contains_key(key_of(x, first)),
        m1[key_of(x, first)]@ == (if m0.contains_key(key_of(x, first)) {
            m0[key_of(x, first)]@
        } else {
            Seq::empty()
        }).push(keys.len() as usize),
        forall|g: u64| g != key_of(x, first) ==> (#[trigger] m1.contains_key(g)) == m0.contains_key(g),
        forall|g: u64| g != key_of(x, first) && m0.contains_key(g) ==> #[trigger] m1[g] == m0[g],
    ensures
        buckets_ok(m1, keys.push(x), first),
{
    let h = key_of(x, first);
    let ks = keys.push(x);
    assert forall|g: u64, k: int| m1.contains_key(g) && 0 <= k < m1[g]@.len() implies #[trigger] m1[g]@[k]
        < ks.len() && key_of(ks[m1[g]@[k] as int], first) == g by {
        if g == h {
            if m0.contains_key(h) && k < m0[h]@.len() {
                assert(m1[g]@[k] == m0[h]@[k]);
                assert(m0[h]@[k] < keys.len());
                assert(ks[m0[h]@[k] as int] == keys[m0[h]@[k] as int]);
            } else {
                assert(m1[g]@[k] == keys.len() as usize);
                assert(ks[keys.len() as int] == x);
            }
        } else {
            assert(m1[g] == m0[g]);
            assert(m0[g]@[k] < keys.len());
            assert(ks[m0[g]@[k] as int] == keys[m0[g]@[k] as int]);
        }
    }
    assert forall|i: int| 0 <= i < ks.len() implies m1.contains_key(key_of(#[trigger] ks[i], first))
        && m1[key_of(ks[i], first)]@.contains(i as usize) by {
        if i == keys.len() {
            assert(m1[h]@[m1[h]@.len() - 1] == i as usize);
        } else {
            assert(ks[i] == keys[i]);
            let g = key_of(keys[i], first);
            assert(m0.contains_key(g) && m0[g]@.contains(i as usize));
            if g == h {
                let k = choose|k: int| 0 <= k < m0[h]@.len() && m0[h]@[k] == i as usize;
                assert(m1[h]@[k] == i as usize);
            } else {
                assert(m1[g] == m0[g]);
            }
        }
    }
}

/// The first position in the bucket of `h` whose element `value` reports
/// itself equal to.
fn find_in_buckets<T: WithTwoHashes>(
    m: &HashMap<u64, Vec<usize>>,
    h: u64,
    items: &Vec<T>,
    value: &T,
    first: bool,
) -> (r: Option<usize>)
    requires
        buckets_ok(m@, items@, first),
    ensures
        r matches Some(i) ==> i < items@.len() && key_of(items@[i as int], first) == h
            && value.spec_same(&items@[i as int]),
        r is None ==> forall|i: int|
            0 <= i < items@.len() && key_of(#[trigger] items@[i], first) == h ==> !value.spec_same(
                &items@[i],
            ),
{
    let n = items.len();
    match m.get(&h) {
        Some(ids) => {
            let mut k: usize = 0;
            while k < ids.len()
                invariant
                    m@.contains_key(h),
                    m@[h] == *ids,
                    n == items@.len(),
                    buckets_ok(m@, items@, first),
                    forall|t: int| 0 <= t < k ==> !value.spec_same(&items@[#[trigger] ids@[t] as int]),
                decreases ids.len() - k,
            {
                let i = ids[k];
                assert(m@[h]@[k as int] == i);
                if value.same_as(&items[i]) {
                    return Some(i);
                }
                k = k + 1;
            }
            proof {
                assert forall|i: int|
                    0 <= i < items@.len() && key_of(#[trigger] items@[i], first) == h implies !value.spec_same(
                    &items@[i],
                ) by {
                    assert(m@[h]@.contains(i as usize));
                    let t = choose|t: int| 0 <= t < ids@.len() && ids@[t] == i as usize;
                    assert(!value.spec_same(&items@[ids@[t] as int]));
                }
            }
            None
        },
        None => {
            proof {
                assert forall|i: int|
                    0 <= i < items@.len() && key_of(#[trigger] items@[i], first) == h implies !value.spec_same(
                    &items@[i],
                ) by {}
            }
            None
        },
    }
}

/// The position of a stored element that matches `value`, looking in the
/// bucket of its first hash, then in that of its second.
fn find_match<T: WithTwoHashes>(
    b1: &HashMap<u64, Vec<usize>>,
    b2: &HashMap<u64, Vec<usize>>,
    items: &Vec<T>,
    value: &T,
) -> (r: Option<usize>)
    requires
        buckets_ok(b1@, items@, true),
        buckets_ok(b2@, items@, false),
    ensures
        r matches Some(i) ==> i < items@.len() && matches(*value, items@[i as int]),
        r is None <==> !has_match(items@, *value),
{
    let h1 = value.hash1();
    match find_in_buckets(b1, h1, items, value, true) {
        Some(i) => Some(i),
        None => {
            let h2 = value.hash2();
            let r = find_in_buckets(b2, h2, items, value, false);
            proof {
                if r is None && has_match(items@, *value) {
                    let i = choose|i: int| 0 <= i < items@.len() && matches(*value, #[trigger] items@[i]);
                    assert(key_of(items@[i], true) == h1 || key_of(items@[i], false) == h2);
                }
            }
            r
        },
    }
}

/// Files a new last element under both its hashes.
fn file_new<T: WithTwoHashes>(
    b1: &mut HashMap<u64, Vec<usize>>,
    b2: &mut HashMap<u64, Vec<usize>>,
    items: Ghost<Seq<T>>,
    n: usize,
    x: &T,
)
    requires
        buckets_ok(old(b1)@, items@, true),
        buckets_ok(old(b2)@, items@, false),
        n == items@.len(),
    ensures
        buckets_ok(final(b1)@, items@.push(*x), true),
        buckets_ok(final(b2)@, items@.push(*x), false),
{
    let ghost m1 = b1@;
    let ghost m2 = b2@;
    let h1 = x.hash1();
    let h2 = x.hash2();
    add_to_bucket(b1, h1, n);
    add_to_bucket(b2, h2, n);
    proof {
        lemma_bucket_push(m1, b1@, items@, *x, true);
        lemma_bucket_push(m2, b2@, items@, *x, false);
    }
}

/// What inserting into a set may leave: the set as it was, or with the new
/// element added at the end.
pub open spec fn inserted<T>(before: Seq<T>, after: Seq<T>, value: T) -> bool {
    after == before || after == before.push(value)
}

/// Inserting never takes an element out: whatever was found stays found.
pub proof fn law_insert_keeps_elements<T>(before: Seq<T>, after: Seq<T>, value: T, x: T)
    requires
        inserted(before, after, value),
        before.contains(x),
    ensures
        after.contains(x),
{
    let k = choose|k: int| 0 <= k < before.len() && before[k] == x;
    assert(after[k] == x);
}

/// Inserting never makes a found element unfound: whatever a set contained
/// before, it still contains.
pub proof fn law_found_stays_found<T: WithTwoHashes>(before: Seq<T>, after: Seq<T>, value: T, x: T)
    requires
        inserted(before, after, value),
        has_match(before, x),
    ensures
        has_match(after, x),
{
    let k = choose|k: int| 0 <= k < before.len() && matches(x, #[trigger] before[k]);
    assert(after[k] == before[k]);
}

/// A set of elements with two hashes.
pub struct HashSet2<T> {
    items: Vec<T>,
    by_hash1: HashMap<u64, Vec<usize>>,
    by_hash2: HashMap<u64, Vec<usize>>,
}

impl<T> View for HashSet2<T> {
    type V = Seq<T>;

    /// The stored elements, in the order they were inserted.
    closed spec fn view(&self) -> Seq<T> {
        self.items@
    }
}

impl<T: WithTwoHashes> HashSet2<T> {
    /// Each bucket map files every stored position under its hash and holds
    /// nothing else, and the size fits a `u32`.
    pub closed spec fn wf(&self) -> bool {
        &&& buckets_ok(self.by_hash1@, self.items@, true)
        &&& buckets_ok(self.by_hash2@, self.items@, false)
        &&& self.items@.len() <= u32::MAX
    }

    pub fn new() -> (r: Self)
        ensures
            r.wf(),
            r@ == Seq::<T>::empty(),
    {
        HashSet2 { items: Vec::new(), by_hash1: HashMap::new(), by_hash2: HashMap::new() }
    }

    /// The number of stored elements.
    pub fn len(&self) -> (r: u32)
        requires
            self.wf(),
        ensures
            r == self@.len(),
    {
        self.items.len() as u32
    }

    /// Inserts `value` unless a stored element matches it; a stored element
    /// is never replaced. Returns the matching stored element, or `value`
    /// itself when it was added.
    pub fn insert(&mut self, value: T) -> (r: T)
        requires
            old(self).wf(),
            old(self)@.len() < u32::MAX,
        ensures
            final(self).wf(),
            inserted(old(self)@, final(self)@, value),
            has_match(old(self)@, value) ==> final(self)@ == old(self)@ && old(self)@.contains(r)
                && matches(value, r),
            !has_match(old(self)@, value) ==> final(self)@ == old(self)@.push(value) && r == value,
    {
        match find_match(&self.by_hash1, &self.by_hash2, &self.items, &value) {
            Some(i) => {
                let r = self.items[i];
                assert(self@[i as int] == r);
                r
            },
            None => {
                let ghost items = self.items@;
                file_new(&mut self.by_hash1, &mut self.by_hash2, Ghost(items), self.items.len(), &value);
                self.items.push(value);
                value
            },
        }
    }

    /// The stored element that matches `value`, if any.
    pub fn get(&self, value: T) -> (r: Option<T>)
        requires
            self.wf(),
        ensures
            r is Some <==> has_match(self@, value),
            r matches Some(x) ==> self@.contains(x) && matches(value, x),
    {
        match find_match(&self.by_hash1, &self.by_hash2, &self.items, &value) {
            Some(i) => {
                assert(self@[i as int] == self.items[i as int]);
                Some(self.items[i])
            },
            None => None,
        }
    }

    /// A stored element matches `value`.
    pub fn contains(&self, value: T) -> (r: bool)
        requires
            self.wf(),
        ensures
            r == has_match(self@, value),
    {
        find_match(&self.by_hash1, &self.by_hash2, &self.items, &value).is_some()
    }

    /// Removes every stored element that `value` reports itself equal to,
    /// scanning them all; the others stay, in their order.
    pub fn slow_remove(&mut self, value: T)
        requires
            old(self).wf(),
        ensures
            final(self).wf(),
            !has_match(final(self)@, value),
            forall|x: T| #[trigger] final(self)@.contains(x) ==> old(self)@.contains(x) && !value.spec_same(&x),
            forall|i: int|
                0 <= i < old(self)@.len() && !value.spec_same(&old(self)@[i]) ==> final(self)@.contains(
                    #[trigger] old(self)@[i],
                ),
    {
        let mut kept: Vec<T> = Vec::new();
        let mut i: usize = 0;
        while i < self.items.len()
            invariant
                i <= self.items@.len(),
                kept@.len() <= i,
                forall|x: T| #[trigger] kept@.contains(x) ==> self.items@.contains(x) && !value.spec_same(&x),
                forall|j: int|
                    0 <= j < i && !value.spec_same(&self.items@[j]) ==> kept@.contains(
                        #[trigger] self.items@[j],
                    ),
            decreases self.items.len() - i,
        {
            let x = self.items[i];
            if !value.same_as(&x) {
                let ghost k0 = kept@;
                kept.push(x);
                proof {
                    assert(self.items@[i as int] == x);
                    assert(kept@[kept@.len() - 1] == x);
                    assert forall|y: T| #[trigger] kept@.contains(y) implies self.items@.contains(y)
                        && !value.spec_same(&y) by {
                        if y != x {
                            let k = choose|k: int| 0 <= k < kept@.len() && kept@[k] == y;
                            assert(k0[k] == y);
                            assert(k0.contains(y));
                        }
                    }
                    assert forall|j: int|
                        0 <= j < i + 1 && !value.spec_same(&self.items@[j]) implies kept@.contains(
                        #[trigger] self.items@[j],
                    ) by {
                        if j < i {
                            let k = choose|k: int| 0 <= k < k0.len() && k0[k] == self.items@[j];
                            assert(kept@[k] == self.items@[j]);
                        }
                    }
                }
            }
            i = i + 1;
        }
        let mut by_hash1: HashMap<u64, Vec<usize>> = HashMap::new();
        let mut by_hash2: HashMap<u64, Vec<usize>> = HashMap::new();
        let mut j: usize = 0;
        proof {
            assert(kept@.take(0) =~= Seq::<T>::empty());
        }
        while j < kept.len()
            invariant
                j <= kept@.len(),
                buckets_ok(by_hash1@, kept@.take(j as int), true),
                buckets_ok(by_hash2@, kept@.take(j as int), false),
            decreases kept.len() - j,
        {
            let x = kept[j];
            file_new(&mut by_hash1, &mut by_hash2, Ghost(kept@.take(j as int)), j, &x);
            assert(kept@.take(j as int).push(x) =~= kept@.take(j as int + 1));
            j = j + 1;
        }
        assert(kept@.take(kept@.len() as int) =~= kept@);
        self.items = kept;
        self.by_hash1 = by_hash1;
        self.by_hash2 = by_hash2;
        proof {
            assert(!has_match(self@, value)) by {
                if has_match(self@, value) {
                    let k = choose|k: int| 0 <= k < self@.len() && matches(value, #[trigger] self@[k]);
                    assert(self@.contains(self@[k]));
                }
            }
        }
    }

    /// The stored elements, leaving out each one that an element listed
    /// before it reports itself equal to.
    pub fn as_vector(&self) -> (r: Vec<T>)
        requires
            self.wf(),
        ensures
            r@.len() <= self@.len(),
            forall|x: T| #[trigger] r@.contains(x) ==> self@.contains(x),
            forall|a: int, b: int|
                #![trigger r@[a], r@[b]]
                0 <= a < b < r@.len() ==> !r@[a].spec_same(&r@[b]),
            forall|i: int| 0 <= i < self@.len() ==> covered(r@, #[trigger] self@[i]),
    {
        let mut result: Vec<T> = Vec::new();
        let mut i: usize = 0;
        while i < self.items.len()
            invariant
                i <= self.items@.len(),
                result@.len() <= i,
                forall|x: T| #[trigger] result@.contains(x) ==> self.items@.contains(x),
                forall|a: int, b: int|
                    #![trigger result@[a], result@[b]]
                    0 <= a < b < result@.len() ==> !result@[a].spec_same(&result@[b]),
                forall|j: int| 0 <= j < i ==> covered(result@, #[trigger] self.items@[j]),
            decreases self.items.len() - i,
        {
            let value = self.items[i];
            let mut found = false;
            let mut k: usize = 0;
            while k < result.len()
                invariant
                    k <= result@.len(),
                    found ==> exists|t: int| 0 <= t < result@.len() && result@[t].spec_same(&value),
                    !found ==> forall|t: int| 0 <= t < k ==> !(#[trigger] result@[t]).spec_same(&value),
                ensures
                    found ==> exists|t: int| 0 <= t < result@.len() && result@[t].spec_same(&value),
                    !found ==> forall|t: int| 0 <= t < result@.len() ==> !(#[trigger] result@[t]).spec_same(&value),
                decreases result.len() - k,
            {
                if result[k].same_as(&value) {
                    found = true;
                    break;
                }
                k = k + 1;
            }
            let ghost r0 = result@;
            if !found {
                result.push(value);
                proof {
                    assert(self.items@[i as int] == value);
                    assert forall|y: T| #[trigger] result@.contains(y) implies self.items@.contains(y) by {
                        if y != value {
                            let t = choose|t: int| 0 <= t < result@.len() && result@[t] == y;
                            assert(r0[t] == y);
                            assert(r0.contains(y));
                        }
                    }
                    assert forall|a: int, b: int|
                        #![trigger result@[a], result@[b]]
                        0 <= a < b < result@.len() implies !result@[a].spec_same(&result@[b]) by {
                        if b < r0.len() {
                            assert(result@[a] == r0[a] && result@[b] == r0[b]);
                        } else {
                            assert(result@[a] == r0[a]);
                        }
                    }
                }
            }
            proof {
                assert forall|j: int| 0 <= j < i + 1 implies covered(result@, #[trigger] self.items@[j]) by {
                    if j < i {
                        let t = choose|t: int|
                            0 <= t < r0.len() && (r0[t] == self.items@[j] || r0[t].spec_same(&self.items@[j]));
                        assert(result@[t] == r0[t]);
                    } else if found {
                        let t = choose|t: int| 0 <= t < r0.len() && r0[t].spec_same(&value);
                        assert(result@[t] == r0[t]);
                    } else {
                        assert(result@[r0.len() as int] == value);
                    }
                }
            }
            i = i + 1;
        }
        assert(self@ == self.items@);
        result
    }

    /// A cursor over the stored elements, in the order they were inserted.
    pub fn iter(&self) -> (r: HashSet2Iter<T>)
        requires
            self.wf(),
        ensures
            r.items() == self@,
            r.position() == 0,
    {
        let mut items: Vec<T> = Vec::new();
        let mut i: usize = 0;
        while i < self.items.len()
            invariant
                i <= self.items@.len(),
                items@ == self.items@.take(i as int),
            decreases self.items.len() - i,
        {
            items.push(self.items[i]);
            i = i + 1;
            assert(items@ =~= self.items@.take(i as int));
        }
        assert(self.items@.take(self.items@.len() as int) =~= self.items@);
        HashSet2Iter { items, pos: 0 }
    }
}

/// A cursor over the elements of a `HashSet2`.
pub struct HashSet2Iter<T> {
    items: Vec<T>,
    pos: usize,
}

impl<T: Copy> HashSet2Iter<T> {
    pub closed spec fn items(&self) -> Seq<T> {
        self.items@
    }

    pub closed spec fn position(&self) -> int {
        self.pos as int
    }

    /// The next element, or `None` once all have been handed out.
    pub fn next(&mut self) -> (r: Option<T>)
        requires
            old(self).position() <= old(self).items().len(),
        ensures
            final(self).items() == old(self).items(),
            final(self).position() <= final(self).items().len(),
            old(self).position() < old(self).items().len() ==> r == Some(
                old(self).items()[old(self).position()],
            ) && final(self).position() == old(self).position() + 1,
            old(self).position() >= old(self).items().len() ==> r is None && final(self).position()
                == old(self).position(),
    {
        if self.pos < self.items.len() {
            let x = self.items[self.pos];
            self.pos = self.pos + 1;
            Some(x)
        } else {
            None
        }
    }
}

/// A map from elements with two hashes to copied values.
pub struct HashMap2<T, V> {
    keys: Vec<T>,
    values: Vec<V>,
    by_hash1: HashMap<u64, Vec<usize>>,
    by_hash2: HashMap<u64, Vec<usize>>,
}

impl<T, V> View for HashMap2<T, V> {
    type V = Seq<(T, V)>;

    /// The stored entries, in the order they were inserted.
    closed spec fn view(&self) -> Seq<(T, V)> {
        self.keys@.zip_with(self.values@)
    }
}

impl<T, V> HashMap2<T, V> {
    /// The stored keys, in the order they were inserted.
    pub closed spec fn keys(&self) -> Seq<T> {
        self.keys@
    }
}

impl<T: WithTwoHashes, V: Copy> HashMap2<T, V> {
    /// Keys and values line up, each bucket map files every stored position
    /// under its hash and holds nothing else, and the size fits a `u32`.
    pub closed spec fn wf(&self) -> bool {
        &&& self.keys@.len() == self.values@.len()
        &&& buckets_ok(self.by_hash1@, self.keys@, true)
        &&& buckets_ok(self.by_hash2@, self.keys@, false)
        &&& self.keys@.len() <= u32::MAX
    }

    /// The keys are the first parts of the entries.
    pub proof fn lemma_keys(&self)
        requires
            self.wf(),
        ensures
            self.keys().len() == self@.len(),
            forall|i: int| 0 <= i < self@.len() ==> #[trigger] self@[i].0 == self.keys()[i],
    {
    }

    pub fn new() -> (r: Self)
        ensures
            r.wf(),
            r@ == Seq::<(T, V)>::empty(),
    {
        let r = HashMap2 {
            keys: Vec::new(),
            values: Vec::new(),
            by_hash1: HashMap::new(),
            by_hash2: HashMap::new(),
        };
        assert(r@ =~= Seq::<(T, V)>::empty());
        r
    }

    /// Adds the entry unless a stored key matches `key`; a stored value is
    /// never replaced.
    pub fn insert_if_new(&mut self, key: T, value: V)
        requires
            old(self).wf(),
            old(self)@.len() < u32::MAX,
        ensures
            final(self).wf(),
            has_match(old(self).keys(), key) ==> final(self)@ == old(self)@,
            !has_match(old(self).keys(), key) ==> final(self)@ == old(self)@.push((key, value)),
    {
        match find_match(&self.by_hash1, &self.by_hash2, &self.keys, &key) {
            Some(_) => {},
            None => {
                let ghost keys = self.keys@;
                file_new(&mut self.by_hash1, &mut self.by_hash2, Ghost(keys), self.keys.len(), &key);
                let ghost v0 = self@;
                self.keys.push(key);
                self.values.push(value);
                assert(self@ =~= v0.push((key, value)));
            },
        }
    }

    /// The value stored with a key that matches `key`, if any.
    pub fn get(&self, key: T) -> (r: Option<V>)
        requires
            self.wf(),
        ensures
            r is Some <==> has_match(self.keys(), key),
            r matches Some(v) ==> exists|k: int|
                0 <= k < self@.len() && matches(key, self@[k].0) && #[trigger] self@[k].1 == v,
    {
        match find_match(&self.by_hash1, &self.by_hash2, &self.keys, &key) {
            Some(i) => {
                assert(self@[i as int].1 == self.values@[i as int]);
                assert(self@[i as int].0 == self.keys@[i as int]);
                Some(self.values[i])
            },
            None => None,
        }
    }

    /// A stored key matches `key`.
    pub fn contains_key(&self, key: T) -> (r: bool)
        requires
            self.wf(),
        ensures
            r == has_match(self.keys(), key),
    {
        find_match(&self.by_hash1, &self.by_hash2, &self.keys, &key).is_some()
    }

    /// The number of stored entries.
    pub fn len(&self) -> (r: u32)
        requires
            self.wf(),
        ensures
            r == self@.len(),
    {
        self.keys.len() as u32
    }
}

} // verus!
