//! Dependency sets: which base constructions an entity descends from.
//!
//! A set is encoded in a 64-bit word. Its low 40 bits are a bitmask over the
//! members `0..40`; its upper 24 bits are the id of an interned, sorted list of
//! the members `>= 40`, each stored as `member - 39`. Id 0 is the empty list.
use vstd::prelude::*;
use vstd::set_lib::*;
use std::collections::HashMap;

verus! {

broadcast use vstd::std_specs::hash::group_hash_axioms;

/// Number of members kept directly in the low bits of a word.
pub const LOW_BITS: u64 = 40;

/// Mask of the low bits of a word.
pub const LOW_MASK: u64 = 0xff_ffff_ffff;

/// Number of ids that the upper 24 bits of a word can hold.
pub const MAX_COMBINATIONS: usize = 0x100_0000;

/// Bit `i` of `d` is set.
pub open spec fn bit_set(d: u64, i: u64) -> bool {
    d & (1u64 << i) != 0
}

/// The members that the low bits of `d` hold.
pub open spec fn low_members(d: u64) -> Set<int> {
    Set::new(|i: int| 0 <= i < 40 && bit_set(d, i as u64))
}

/// The members among `0..n` that the low bits of `d` hold.
pub open spec fn low_members_below(d: u64, n: int) -> Set<int> {
    Set::new(|i: int| 0 <= i < n && bit_set(d, i as u64))
}

/// The members that a stored list stands for.
pub open spec fn high_members(s: Seq<u32>) -> Set<int> {
    s.map_values(|m: u32| m as int + 39).to_set()
}

/// A stored list: strictly increasing, every entry at least 1.
pub open spec fn sorted_list(s: Seq<u32>) -> bool {
    &&& forall|i: int, j: int| 0 <= i < j < s.len() ==> s[i] < s[j]
    &&& forall|i: int| 0 <= i < s.len() ==> s[i] >= 1
}

/// The id part of a word.
pub open spec fn id_of(d: u64) -> int {
    (d >> 40) as int
}

proof fn lemma_low_members_finite(d: u64, n: int)
    requires
        0 <= n <= 64,
    ensures
        low_members_below(d, n).finite(),
        low_members_below(d, n).len() <= n,
{
    lemma_int_range(0, n);
    lemma_len_subset(low_members_below(d, n), set_int_range(0, n));
}

proof fn lemma_high_members_len(s: Seq<u32>)
    requires
        sorted_list(s),
    ensures
        high_members(s).finite(),
        high_members(s).len() == s.len(),
        forall|x: int| high_members(s).contains(x) ==> x >= 40,
{
    let t = s.map_values(|m: u32| m as int + 39);
    assert(t.no_duplicates()) by {
        assert forall|i: int, j: int| 0 <= i < t.len() && 0 <= j < t.len() && i != j implies t[i]
            != t[j] by {
            if i < j {
                assert(s[i] < s[j]);
            } else {
                assert(s[j] < s[i]);
            }
        }
    }
    t.unique_seq_to_set();
    assert forall|x: int| high_members(s).contains(x) implies x >= 40 by {
        let k = choose|k: int| 0 <= k < t.len() && t[k] == x;
        assert(s[k] >= 1);
    }
}

/// The number of set bits of `x`.
pub open spec fn popcount(x: u64) -> nat {
    low_members_below(x, 64).len()
}

/// Counts the members held in the low bits of `d`.
pub fn low_count(d: u64) -> (r: u64)
    ensures
        low_members(d).finite(),
        r == low_members(d).len(),
        r <= 40,
{
    let r = count_bits_below(d, 40);
    assert(low_members_below(d, 40) =~= low_members(d));
    r
}

/// Counts the set bits of `x`.
pub fn count_ones(x: u64) -> (r: u64)
    ensures
        r == popcount(x),
        r <= 64,
{
    count_bits_below(x, 64)
}

/// Counts the set bits of `d` below bit `n`.
fn count_bits_below(d: u64, n: u64) -> (r: u64)
    requires
        n <= 64,
    ensures
        low_members_below(d, n as int).finite(),
        r == low_members_below(d, n as int).len(),
        r <= n,
{
    let mut c: u64 = 0;
    let mut i: u64 = 0;
    proof {
        assert(low_members_below(d, 0) =~= Set::empty());
    }
    while i < n
        invariant
            i <= n <= 64,
            low_members_below(d, i as int).finite(),
            c == low_members_below(d, i as int).len(),
            c <= i,
        decreases n - i,
    {
        proof {
            lemma_low_members_finite(d, i as int);
        }
        if d & (1u64 << i) != 0 {
            assert(low_members_below(d, i as int + 1) =~= low_members_below(d, i as int).insert(
                i as int,
            ));
            c = c + 1;
        } else {
            assert(low_members_below(d, i as int + 1) =~= low_members_below(d, i as int));
        }
        i = i + 1;
    }
    c
}


proof fn lemma_high_members_push(s: Seq<u32>, x: u32)
    ensures
        high_members(s.push(x)) =~= high_members(s).insert(x as int + 39),
{
    let t = s.map_values(|m: u32| m as int + 39);
    let t2 = s.push(x).map_values(|m: u32| m as int + 39);
    assert(t2 =~= t.push(x as int + 39));
    assert forall|z: int| #[trigger] t2.contains(z) <==> (t.contains(z) || z == x as int + 39) by {
        if t2.contains(z) {
            let k = choose|k: int| 0 <= k < t2.len() && t2[k] == z;
            if k < t.len() {
                assert(t[k] == z);
            }
        }
        if t.contains(z) {
            let k = choose|k: int| 0 <= k < t.len() && t[k] == z;
            assert(t2[k] == z);
        }
        if z == x as int + 39 {
            assert(t2[t.len() as int] == z);
        }
    }
}

/// Every entry of a stored list is at least its position plus one, so a list
/// is never longer than `u32::MAX`.
proof fn lemma_sorted_len(s: Seq<u32>)
    requires
        sorted_list(s),
    ensures
        s.len() <= u32::MAX,
        forall|i: int| 0 <= i < s.len() ==> s[i] >= i + 1,
{
    assert forall|i: int| 0 <= i < s.len() implies s[i] >= i + 1 by {
        lemma_sorted_entry(s, i);
    }
    if s.len() > 0 {
        assert(s[s.len() - 1] >= s.len());
    }
}

proof fn lemma_sorted_entry(s: Seq<u32>, i: int)
    requires
        sorted_list(s),
        0 <= i < s.len(),
    ensures
        s[i] >= i + 1,
    decreases i,
{
    if i > 0 {
        lemma_sorted_entry(s, i - 1);
    }
}

proof fn lemma_id_fits(d: u64)
    ensures
        d >> 40u64 <= 0xff_ffffu64,
{
    assert(d >> 40u64 <= 0xff_ffffu64) by (bit_vector);
}

proof fn lemma_or_bits(a: u64, b: u64, i: u64)
    requires
        i < 64,
    ensures
        bit_set(a | b, i) == (bit_set(a, i) || bit_set(b, i)),
{
    assert((a | b) & (1u64 << i) != 0 <==> (a & (1u64 << i) != 0 || b & (1u64 << i) != 0))
        by (bit_vector)
        requires
            i < 64,
    ;
}

/// Bit `i` of `a | b` is set where it is set in `a` or in `b`.
pub proof fn lemma_or_bits_pub(a: u64, b: u64, i: u64)
    requires
        i < 64,
    ensures
        bit_set(a | b, i) == (bit_set(a, i) || bit_set(b, i)),
{
    lemma_or_bits(a, b, i);
}

proof fn lemma_bit_of_and(a: u64, b: u64, i: u64)
    requires
        i < 64,
    ensures
        bit_set(a & b, i) == (bit_set(a, i) && bit_set(b, i)),
{
    assert((a & b) & (1u64 << i) != 0 <==> (a & (1u64 << i) != 0 && b & (1u64 << i) != 0))
        by (bit_vector)
        requires
            i < 64,
    ;
}

proof fn lemma_low_union(a: u64, b: u64)
    ensures
        low_members(a | b) =~= low_members(a).union(low_members(b)),
{
    assert forall|i: int| 0 <= i < 40 implies #[trigger] bit_set(a | b, i as u64) == (bit_set(a, i as u64)
        || bit_set(b, i as u64)) by {
        lemma_or_bits(a, b, i as u64);
    }
}

/// A sum of the entries of a list, wrapping on overflow.
pub open spec fn list_sum(s: Seq<u32>) -> u32
    decreases s.len(),
{
    if s.len() == 0 {
        0
    } else {
        vstd::wrapping::u32_specs::wrapping_add(list_sum(s.drop_last()), s.last())
    }
}

/// A sum of the squares of the entries of a list, wrapping on overflow.
pub open spec fn list_sum_sq(s: Seq<u32>) -> u32
    decreases s.len(),
{
    if s.len() == 0 {
        0
    } else {
        vstd::wrapping::u32_specs::wrapping_add(
            list_sum_sq(s.drop_last()),
            vstd::wrapping::u32_specs::wrapping_mul(s.last(), s.last()),
        )
    }
}

/// The key under which a list is indexed: its sum and its sum of squares.
pub open spec fn list_key(s: Seq<u32>) -> u64 {
    ((list_sum(s) as u64) << 32u64) | (list_sum_sq(s) as u64)
}

/// `after` and `r` are a table and a word that combining `d1`, `d2` and
/// `index` on `before` may leave: the table only grew, and `r` encodes the
/// union.
pub open spec fn combined(
    before: DepsTable,
    after: DepsTable,
    d1: u64,
    d2: u64,
    index: Option<i32>,
    r: u64,
) -> bool {
    &&& after.wf()
    &&& before@.is_prefix_of(after@)
    &&& after@.len() <= before@.len() + 1
    &&& after.valid(r)
    &&& after.members(r) == before.members(d1).union(before.members(d2)).union(
        index_members(index),
    )
    &&& stored_union(before, d1, d2, index) ==> after@ == before@
}

/// Some word of `t` already encodes the union of `d1`, `d2` and `index`,
/// so combining them interns nothing.
pub open spec fn stored_union(t: DepsTable, d1: u64, d2: u64, index: Option<i32>) -> bool {
    exists|w: u64|
        t.valid(w) && t.members(w) == t.members(d1).union(t.members(d2)).union(index_members(index))
}

/// The only stored list that, as high members, agrees with the set of `w`
/// above 40 is the list of `w`.
proof fn lemma_list_of_set(t: DepsTable, w: u64, s: Seq<u32>)
    requires
        t.wf(),
        t.valid(w),
        sorted_list(s),
        forall|x: int| x >= 40 ==> (#[trigger] high_members(s).contains(x) == t.members(w).contains(x)),
    ensures
        s == t@[id_of(w)],
{
    let lw = t@[id_of(w)];
    lemma_high_members_len(s);
    lemma_high_members_len(lw);
    assert forall|m: u32| s.contains(m) <==> lw.contains(m) by {
        lemma_high_members_contains(s, m);
        lemma_high_members_contains(lw, m);
        if m == 0 {
            if s.contains(m) {
                let k = choose|k: int| 0 <= k < s.len() && s[k] == m;
            }
            if lw.contains(m) {
                let k = choose|k: int| 0 <= k < lw.len() && lw[k] == m;
            }
        } else {
            assert(high_members(s).contains(m as int + 39) == t.members(w).contains(m as int + 39));
            assert(!low_members(w).contains(m as int + 39));
        }
    }
    lemma_sorted_unique(s, lw);
}

/// Combining a set with the empty set, or with itself, gives back the same
/// word and leaves the table as it was; the union is already stored, so no
/// room in the table is needed for it.
pub proof fn law_combine_identity(before: DepsTable, after: DepsTable, d: u64, r0: u64)
    requires
        before.wf(),
        before.valid(d),
        combined(before, after, d, 0, None, r0) || combined(before, after, d, d, None, r0),
    ensures
        r0 == d,
        after@ == before@,
        stored_union(before, d, 0, None),
        stored_union(before, d, d, None),
{
    lemma_id_fits(0);
    assert(0u64 >> 40u64 == 0) by (bit_vector);
    assert forall|i: int| 0 <= i < 40 implies !#[trigger] bit_set(0, i as u64) by {
        assert(0u64 & (1u64 << (i as u64)) == 0) by (bit_vector);
    }
    assert(before.members(0) =~= Set::empty());
    assert(before.members(d).union(before.members(0)).union(index_members(None)) =~= before.members(d));
    assert(before.members(d).union(before.members(d)).union(index_members(None)) =~= before.members(d));
    assert(after@[id_of(d)] == before@[id_of(d)]);
    assert(after.members(d) =~= before.members(d));
    assert(after.members(r0) =~= after.members(d));
    after.lemma_canonical(r0, d);
}

/// Encoding a union through combining and counting it again gives the
/// number of members of the union, with the index where one is given.
pub proof fn law_count_of_union(
    before: DepsTable,
    after: DepsTable,
    d1: u64,
    d2: u64,
    index: Option<i32>,
    r: u64,
)
    requires
        before.wf(),
        before.valid(d1),
        before.valid(d2),
        combined(before, after, d1, d2, index, r),
    ensures
        after.members(r) == before.members(d1).union(before.members(d2)).union(index_members(index)),
        after.members(r).len() == before.members(d1).union(before.members(d2)).union(
            index_members(index),
        ).len(),
{
}

/// The number of members of a combination is the number that the combined
/// count gives for its two operands.
pub proof fn law_count_of_combination(
    before: DepsTable,
    after: DepsTable,
    d1: u64,
    d2: u64,
    r: u64,
)
    requires
        before.wf(),
        before.valid(d1),
        before.valid(d2),
        combined(before, after, d1, d2, None, r),
    ensures
        after.members(r).len() == before.members(d1).union(before.members(d2)).len(),
{
    assert(after.members(r) =~= before.members(d1).union(before.members(d2)));
}

/// Bit `k` of `bits` is set exactly where the `k`-th member of `all` belongs
/// to the set of `d`.
pub open spec fn compressed(t: DepsTable, d: u64, all: u64, bits: u64) -> bool {
    forall|k: u64|
        k < 64 ==> #[trigger] bit_set(bits, k) == (k < t.member_seq(all).len() && t.members(
            d,
        ).contains(t.member_seq(all)[k as int]))
}

/// `after` and `r` are a table and a word that unpacking `bits` against
/// `all` on `before` may leave: the table only grew, and `r` encodes the
/// members of `all` that the bits pick.
pub open spec fn decompressed(before: DepsTable, after: DepsTable, all: u64, bits: u64, r: u64) -> bool {
    &&& after.wf()
    &&& before@.is_prefix_of(after@)
    &&& after.valid(r)
    &&& after.members(r) == expanded(before.member_seq(all), bits)
}

/// Packing a subset of `all` into bits and unpacking them again gives back
/// the word of the subset, so its number of members is kept too.
pub proof fn law_compress_round_trip(
    before: DepsTable,
    after: DepsTable,
    d: u64,
    all: u64,
    bits: u64,
    r: u64,
)
    requires
        before.wf(),
        before.valid(d),
        before.valid(all),
        before.members(all).len() <= 64,
        before.members(d).subset_of(before.members(all)),
        compressed(before, d, all, bits),
        decompressed(before, after, all, bits, r),
    ensures
        r == d,
        after.members(r).len() == before.members(d).len(),
{
    lemma_expanded_compressed(before, d, all, bits);
    assert(after.members(r) =~= before.members(d));
    assert(after@[id_of(d)] == before@[id_of(d)]);
    assert(after.members(d) =~= before.members(d));
    assert(after.members(r) =~= after.members(d));
    after.lemma_canonical(r, d);
}

/// Unpacking the bits of a packed subset of `all` gives back the subset;
/// no bit beyond the members of `all` is set.
pub proof fn lemma_expanded_compressed(t: DepsTable, d: u64, all: u64, bits: u64)
    requires
        t.wf(),
        t.valid(d),
        t.valid(all),
        t.members(all).len() <= 64,
        t.members(d).subset_of(t.members(all)),
        compressed(t, d, all, bits),
    ensures
        expanded(t.member_seq(all), bits) == t.members(d),
        forall|k: u64| t.member_seq(all).len() <= k < 64 ==> !#[trigger] bit_set(bits, k),
{
    t.lemma_member_seq(all);
    let ms = t.member_seq(all);
    assert forall|x: int| #[trigger] expanded(ms, bits).contains(x) <==> t.members(d).contains(x) by {
        if t.members(d).contains(x) {
            assert(ms.contains(x));
            let k = choose|k: int| 0 <= k < ms.len() && ms[k] == x;
            assert(bit_set(bits, k as u64));
        }
        if expanded(ms, bits).contains(x) {
            let k = choose|k: int| 0 <= k < ms.len() && bit_set(bits, k as u64) && #[trigger] ms[k] == x;
            assert(bit_set(bits, k as u64) == (k < ms.len() && t.members(d).contains(ms[k as u64 as int])));
        }
    }
    assert(expanded(ms, bits) =~= t.members(d));
    assert forall|k: u64| ms.len() <= k < 64 implies !#[trigger] bit_set(bits, k) by {
        assert(bit_set(bits, k) == (k < t.member_seq(all).len() && t.members(d).contains(
            t.member_seq(all)[k as int],
        )));
    }
}

/// The members that the bits of a union pick are those that either
/// operand picks.
pub proof fn lemma_expanded_or(ms: Seq<int>, a: u64, b: u64)
    requires
        ms.len() <= 64,
    ensures
        expanded(ms, a | b) == expanded(ms, a).union(expanded(ms, b)),
{
    assert forall|x: int| #[trigger] expanded(ms, a | b).contains(x) <==> (expanded(ms, a).contains(x)
        || expanded(ms, b).contains(x)) by {
        if expanded(ms, a | b).contains(x) {
            let k = choose|k: int| 0 <= k < ms.len() && bit_set(a | b, k as u64) && #[trigger] ms[k] == x;
            lemma_or_bits(a, b, k as u64);
        }
        if expanded(ms, a).contains(x) {
            let k = choose|k: int| 0 <= k < ms.len() && bit_set(a, k as u64) && #[trigger] ms[k] == x;
            lemma_or_bits(a, b, k as u64);
        }
        if expanded(ms, b).contains(x) {
            let k = choose|k: int| 0 <= k < ms.len() && bit_set(b, k as u64) && #[trigger] ms[k] == x;
            lemma_or_bits(a, b, k as u64);
        }
    }
    assert(expanded(ms, a | b) =~= expanded(ms, a).union(expanded(ms, b)));
}

/// Where `x` has no bit beyond the length of a strictly increasing `ms`,
/// its set bits pick as many members as there are bits.
pub proof fn lemma_popcount_expanded(ms: Seq<int>, x: u64)
    requires
        ms.len() <= 64,
        forall|a: int, b: int| 0 <= a < b < ms.len() ==> ms[a] < ms[b],
        forall|k: u64| ms.len() <= k < 64 ==> !#[trigger] bit_set(x, k),
    ensures
        expanded(ms, x).finite(),
        popcount(x) == expanded(ms, x).len(),
{
    let bits = low_members_below(x, 64);
    lemma_low_members_finite(x, 64);
    let f = |k: int| ms[k];
    assert forall|k: int| #[trigger] bits.contains(k) implies k < ms.len() by {
        if k >= ms.len() {
            assert(!bit_set(x, k as u64));
        }
    }
    assert(vstd::relations::injective_on(f, bits)) by {
        assert forall|k1: int, k2: int|
            bits.contains(k1) && bits.contains(k2) && #[trigger] f(k1) == #[trigger] f(k2) implies k1 == k2 by {
            if k1 < k2 {
                assert(ms[k1] < ms[k2]);
            }
            if k2 < k1 {
                assert(ms[k2] < ms[k1]);
            }
        }
    }
    assert(bits.map(f) =~= expanded(ms, x)) by {
        assert forall|y: int| #[trigger] bits.map(f).contains(y) <==> expanded(ms, x).contains(y) by {
            if expanded(ms, x).contains(y) {
                let k = choose|k: int| 0 <= k < ms.len() && bit_set(x, k as u64) && #[trigger] ms[k] == y;
                assert(bits.contains(k));
                assert(f(k) == y);
            }
            if bits.map(f).contains(y) {
                let k = choose|k: int| bits.contains(k) && f(k) == y;
                assert(ms[k] == y);
            }
        }
    }
    lemma_map_size(bits, expanded(ms, x), f);
}

/// The word 0 encodes the empty set.
pub proof fn lemma_zero_members(t: DepsTable)
    requires
        t.wf(),
    ensures
        t.valid(0),
        t.members(0) == Set::<int>::empty(),
{
    lemma_id_fits(0);
    assert(0u64 >> 40u64 == 0) by (bit_vector);
    assert forall|i: int| 0 <= i < 40 implies !#[trigger] bit_set(0, i as u64) by {
        assert(0u64 & (1u64 << (i as u64)) == 0) by (bit_vector);
    }
    assert(t.members(0) =~= Set::empty());
}

/// The table of interned lists behind the dependency-set words.
pub struct DepsTable {
    combinations: Vec<Vec<u32>>,
    indices_by_key: HashMap<u64, Vec<usize>>,
}

impl View for DepsTable {
    type V = Seq<Seq<u32>>;

    closed spec fn view(&self) -> Seq<Seq<u32>> {
        self.combinations@.map_values(|v: Vec<u32>| v@)
    }
}

impl DepsTable {
    /// The key index lists, for every stored list, its own id, and no id
    /// beyond the table.
    pub closed spec fn index_ok(&self) -> bool {
        &&& forall|i: int|
            #![trigger self@[i]]
            0 <= i < self@.len() ==> {
                &&& self.indices_by_key@.contains_key(list_key(self@[i]))
                &&& self.indices_by_key@[list_key(self@[i])]@.contains(i as usize)
            }
        &&& forall|h: u64, k: int|
            #![trigger self.indices_by_key@[h]@[k]]
            self.indices_by_key@.contains_key(h) && 0 <= k < self.indices_by_key@[h]@.len()
                ==> self.indices_by_key@[h]@[k] < self@.len()
    }

    /// The table is well formed: id 0 is the empty list, every list is
    /// sorted, and no list is stored twice.
    pub open spec fn wf(&self) -> bool {
        &&& self@.len() >= 1
        &&& self@.len() <= MAX_COMBINATIONS
        &&& self@[0].len() == 0
        &&& forall|i: int| 0 <= i < self@.len() ==> sorted_list(#[trigger] self@[i])
        &&& forall|i: int, j: int|
            0 <= i < self@.len() && 0 <= j < self@.len() && #[trigger] self@[i] == #[trigger] self@[j]
                ==> i == j
        &&& self.index_ok()
    }

    /// One more list can be interned.
    pub open spec fn has_room(&self) -> bool {
        self@.len() < MAX_COMBINATIONS
    }

    /// `d` is a word of this table: its id names a stored list.
    pub open spec fn valid(&self, d: u64) -> bool {
        id_of(d) < self@.len()
    }

    /// The members of the set that `d` encodes.
    pub open spec fn members(&self, d: u64) -> Set<int> {
        low_members(d).union(high_members(self@[id_of(d)]))
    }

    /// Two words of a well-formed table that encode the same set are equal:
    /// the encoding is canonical.
    pub proof fn lemma_canonical(&self, d1: u64, d2: u64)
        requires
            self.wf(),
            self.valid(d1),
            self.valid(d2),
            self.members(d1) == self.members(d2),
        ensures
            d1 == d2,
    {
        let s1 = self@[id_of(d1)];
        let s2 = self@[id_of(d2)];
        lemma_high_members_len(s1);
        lemma_high_members_len(s2);
        assert forall|i: u64| i < 40 implies bit_set(d1, i) == bit_set(d2, i) by {
            assert(self.members(d1).contains(i as int) == bit_set(d1, i));
            assert(self.members(d2).contains(i as int) == bit_set(d2, i));
        }
        lemma_low_bits_eq(d1, d2, 40);
        assert forall|x: u32| s1.contains(x) <==> s2.contains(x) by {
            lemma_high_members_contains(s1, x);
            lemma_high_members_contains(s2, x);
            if x == 0 {
                if s1.contains(x) {
                    let k = choose|k: int| 0 <= k < s1.len() && s1[k] == x;
                }
                if s2.contains(x) {
                    let k = choose|k: int| 0 <= k < s2.len() && s2[k] == x;
                }
            }
            assert(x == 0 || !low_members(d1).contains(x as int + 39));
            assert(x == 0 || !low_members(d2).contains(x as int + 39));
            assert(x == 0 || self.members(d1).contains(x as int + 39) == high_members(s1).contains(
                x as int + 39,
            ));
            assert(x == 0 || self.members(d2).contains(x as int + 39) == high_members(s2).contains(
                x as int + 39,
            ));
        }
        lemma_sorted_unique(s1, s2);
        assert(id_of(d1) == id_of(d2));
        assert(d1 == d2) by (bit_vector)
            requires
                d1 & ((1u64 << 40u64) - 1) as u64 == d2 & ((1u64 << 40u64) - 1) as u64,
                d1 >> 40u64 == d2 >> 40u64,
        ;
    }

    /// A word keeps its set when the table grows.
    pub proof fn lemma_grown(&self, after: DepsTable, d: u64)
        requires
            self.valid(d),
            self@.is_prefix_of(after@),
        ensures
            after.valid(d),
            after.members(d) == self.members(d),
    {
        assert(after@[id_of(d)] == self@[id_of(d)]);
    }

    /// The set of a word is finite.
    pub proof fn get_deps_count_finite(&self, d: u64)
        requires
            self.wf(),
            self.valid(d),
        ensures
            self.members(d).finite(),
    {
        self.lemma_members_len(d);
    }

    /// The number of lists stored.
    pub fn len(&self) -> (r: usize)
        ensures
            r == self@.len(),
    {
        self.combinations.len()
    }

    /// One more list can be interned.
    pub fn room_left(&self) -> (r: bool)
        ensures
            r == self.has_room(),
    {
        self.combinations.len() < MAX_COMBINATIONS
    }

    proof fn lemma_members_len(&self, d: u64)
        requires
            self.wf(),
            self.valid(d),
        ensures
            self.members(d).finite(),
            self.members(d).len() == low_members(d).len() + self@[id_of(d)].len(),
            self@[id_of(d)].len() <= u32::MAX,
    {
        lemma_low_members_finite(d, 40);
        assert(low_members_below(d, 40) =~= low_members(d));
        lemma_high_members_len(self@[id_of(d)]);
        lemma_sorted_len(self@[id_of(d)]);
        lemma_set_disjoint_lens(low_members(d), high_members(self@[id_of(d)]));
    }

    /// A table that holds only the empty list.
    pub fn new() -> (r: DepsTable)
        ensures
            r.wf(),
            r@ == seq![Seq::<u32>::empty()],
    {
        let mut indices_by_key: HashMap<u64, Vec<usize>> = HashMap::new();
        indices_by_key.insert(0, vec![0]);
        let r = DepsTable { combinations: vec![Vec::new()], indices_by_key };
        assert(r@ =~= seq![Seq::<u32>::empty()]);
        assert(list_key(Seq::<u32>::empty()) == 0) by {
            assert((0u64 << 32u64) | 0u64 == 0u64) by (bit_vector);
        }
        assert(r.indices_by_key@[0]@ =~= seq![0usize]);
        r
    }

    /// The number of members of the set that `d` encodes.
    pub fn get_deps_count(&self, d: u64) -> (r: u64)
        requires
            self.wf(),
            self.valid(d),
        ensures
            r == self.members(d).len(),
            self.members(d).finite(),
    {
        let lc = low_count(d);
        proof {
            lemma_id_fits(d);
            self.lemma_members_len(d);
        }
        let id = (d >> 40) as usize;
        assert(self.combinations@[id as int]@ == self@[id_of(d)]);
        lc + self.combinations[id].len() as u64
    }

    /// The number of members of the union of the sets that `d1` and `d2`
    /// encode, without building the union.
    pub fn get_combined_deps_count(&self, d1: u64, d2: u64) -> (r: u64)
        requires
            self.wf(),
            self.valid(d1),
            self.valid(d2),
        ensures
            r == self.members(d1).union(self.members(d2)).len(),
            self.members(d1).union(self.members(d2)).finite(),
    {
        let combined = d1 | d2;
        let lc = low_count(combined);
        proof {
            lemma_low_union(d1, d2);
            lemma_id_fits(d1);
            lemma_id_fits(d2);
            self.lemma_members_len(d1);
            self.lemma_members_len(d2);
        }
        let id1 = (d1 >> 40) as usize;
        let id2 = (d2 >> 40) as usize;
        let v1 = &self.combinations[id1];
        let v2 = &self.combinations[id2];
        assert(v1@ == self@[id_of(d1)]);
        assert(v2@ == self@[id_of(d2)]);
        let h1 = Ghost(high_members(v1@));
        let h2 = Ghost(high_members(v2@));
        proof {
            lemma_high_members_len(v1@);
            lemma_high_members_len(v2@);
            lemma_set_intersect_union_lens(h1@, h2@);
            lemma_len_intersect(h1@, h2@);
            assert(self.members(d1).union(self.members(d2)) =~= low_members(combined).union(
                h1@.union(h2@),
            ));
            lemma_set_disjoint_lens(low_members(combined), h1@.union(h2@));
        }
        if combined & !LOW_MASK == 0 {
            assert(d1 >> 40u64 == 0 && d2 >> 40u64 == 0) by (bit_vector)
                requires
                    (d1 | d2) & !0xff_ffff_ffffu64 == 0,
            ;
            return lc;
        }
        let common = count_common(v1, v2);
        lc + v1.len() as u64 + v2.len() as u64 - common
    }

    /// The number of members of the set of `d` with `index` added, without
    /// interning it.
    pub fn get_deps_combined_with_index_count(&self, d: u64, index: i32) -> (r: u64)
        requires
            self.wf(),
            self.valid(d),
            index >= 0,
        ensures
            r == self.members(d).insert(index as int).len(),
    {
        proof {
            self.lemma_members_len(d);
            lemma_id_fits(d);
        }
        let count = self.get_deps_count(d);
        if index < 40 {
            let bit = 1u64 << (index as u64);
            let with = d | bit;
            proof {
                lemma_low_union(d, bit);
                assert forall|i: int| 0 <= i < 40 implies #[trigger] bit_set(bit, i as u64) == (i == index) by {
                    lemma_single_bit(index as u64, i as u64);
                }
                assert(low_members(bit) =~= set![index as int]);
                assert((d | bit) >> 40u64 == d >> 40u64) by (bit_vector)
                    requires
                        bit == 1u64 << (index as u64),
                        index < 40,
                ;
                assert(self.members(with) =~= self.members(d).insert(index as int));
            }
            return self.get_deps_count(with);
        }
        let list = &self.combinations[(d >> 40) as usize];
        assert(list@ == self@[id_of(d)]);
        let m = (index as u32) - 39;
        let mut found = false;
        let mut k: usize = 0;
        while k < list.len()
            invariant
                k <= list@.len(),
                found <==> exists|t: int| 0 <= t < k && list@[t] == m,
            decreases list.len() - k,
        {
            if list[k] == m {
                found = true;
            }
            k = k + 1;
        }
        proof {
            lemma_low_members_finite(d, 40);
            assert(low_members_below(d, 40) =~= low_members(d));
            lemma_high_members_contains(list@, m);
            assert(!low_members(d).contains(index as int));
            if found {
                let t = choose|t: int| 0 <= t < k && list@[t] == m;
                assert(list@.contains(m));
                assert(self.members(d).insert(index as int) =~= self.members(d));
            } else {
                assert(!self.members(d).contains(index as int));
            }
        }
        if found {
            count
        } else {
            count + 1
        }
    }

    /// The number of members of the union of the sets that `d1`, `d2` and
    /// `d3` encode, without interning the union.
    pub fn get_combined_three_deps_count(&self, d1: u64, d2: u64, d3: u64) -> (r: u64)
        requires
            self.wf(),
            self.valid(d1),
            self.valid(d2),
            self.valid(d3),
        ensures
            r == self.members(d1).union(self.members(d2)).union(self.members(d3)).len(),
            self.members(d1).union(self.members(d2)).union(self.members(d3)).finite(),
    {
        let combined = d1 | d2 | d3;
        let lc = low_count(combined);
        proof {
            lemma_low_union(d1, d2);
            lemma_low_union(d1 | d2, d3);
            lemma_id_fits(d1);
            lemma_id_fits(d2);
            lemma_id_fits(d3);
        }
        let v1 = &self.combinations[(d1 >> 40) as usize];
        let v2 = &self.combinations[(d2 >> 40) as usize];
        let v3 = &self.combinations[(d3 >> 40) as usize];
        assert(v1@ == self@[id_of(d1)]);
        assert(v2@ == self@[id_of(d2)]);
        assert(v3@ == self@[id_of(d3)]);
        let merged = merge_lists(v1, v2);
        proof {
            lemma_high_members_of_union(v1@, v2@, merged@);
            lemma_sorted_len(merged@);
        }
        let common = count_common(&merged, v3);
        let ghost h12 = high_members(merged@);
        let ghost h3 = high_members(v3@);
        proof {
            lemma_high_members_len(merged@);
            lemma_high_members_len(v3@);
            lemma_sorted_len(v3@);
            lemma_set_intersect_union_lens(h12, h3);
            lemma_len_intersect(h12, h3);
            lemma_low_members_finite(combined, 40);
            assert(low_members_below(combined, 40) =~= low_members(combined));
            assert(self.members(d1).union(self.members(d2)).union(self.members(d3))
                =~= low_members(combined).union(h12.union(h3)));
            lemma_set_disjoint_lens(low_members(combined), h12.union(h3));
        }
        lc + merged.len() as u64 + v3.len() as u64 - common
    }

    /// `d` is implied by one of the three dependency sets of an action's
    /// inputs: its set is a subset of one of theirs.
    pub fn requires_deps(&self, action_deps: &[u64; 3], d: u64) -> (r: bool)
        requires
            self.wf(),
            self.valid(d),
            forall|k: int| 0 <= k < 3 ==> self.valid(#[trigger] action_deps@[k]),
        ensures
            r == exists|k: int|
                0 <= k < 3 && self.members(d).subset_of(self.members(#[trigger] action_deps@[k])),
    {
        if d == d & LOW_MASK {
            assert(d >> 40u64 == 0) by (bit_vector)
                requires
                    d == d & 0xff_ffff_ffffu64,
            ;
            proof {
                assert(high_members(self@[0]) =~= Set::empty());
                assert forall|k: int| 0 <= k < 3 implies ((action_deps@[k] & d) == d) == self.members(
                    d,
                ).subset_of(self.members(#[trigger] action_deps@[k])) by {
                    let a = action_deps@[k];
                    lemma_high_members_len(self@[id_of(a)]);
                    if (a & d) == d {
                        assert forall|i: int| #[trigger] self.members(d).contains(i) implies self.members(
                            a,
                        ).contains(i) by {
                            lemma_bit_of_and(a, d, i as u64);
                        }
                    }
                    if self.members(d).subset_of(self.members(a)) {
                        assert forall|i: u64| i < 40 implies bit_set(a & d, i) == bit_set(d, i) by {
                            lemma_bit_of_and(a, d, i);
                            if bit_set(d, i) {
                                assert(self.members(d).contains(i as int));
                                assert(self.members(a).contains(i as int));
                            }
                        }
                        lemma_low_bits_eq(a & d, d, 40);
                        assert((a & d) == d) by (bit_vector)
                            requires
                                d == d & 0xff_ffff_ffffu64,
                                (a & d) & ((1u64 << 40u64) - 1) as u64 == d & ((1u64 << 40u64) - 1) as u64,
                        ;
                    }
                }
            }
            (action_deps[0] & d) == d || (action_deps[1] & d) == d || (action_deps[2] & d) == d
        } else {
            let mut i: usize = 0;
            while i < 3
                invariant
                    i <= 3,
                    self.wf(),
                    self.valid(d),
                    forall|k: int| 0 <= k < 3 ==> self.valid(#[trigger] action_deps@[k]),
                    forall|k: int|
                        0 <= k < i ==> !self.members(d).subset_of(
                            self.members(#[trigger] action_deps@[k]),
                        ),
                decreases 3 - i,
            {
                let a = action_deps[i];
                let both = self.get_combined_deps_count(a, d);
                let alone = self.get_deps_count(a);
                proof {
                    let sa = self.members(a);
                    let sd = self.members(d);
                    if sd.subset_of(sa) {
                        assert(sa.union(sd) =~= sa);
                    }
                    if both == alone {
                        self.lemma_members_len(a);
                        self.lemma_members_len(d);
                        lemma_len_union_ind(sa, sd);
                        lemma_subset_equality(sa, sa.union(sd));
                        assert(sd.subset_of(sa));
                    }
                }
                if both == alone {
                    return true;
                }
                i = i + 1;
            }
            false
        }
    }

    /// The members of the set that `d` encodes, in increasing order: the low
    /// bits first, then the stored list.
    pub open spec fn member_seq(&self, d: u64) -> Seq<int> {
        low_seq(d, 40) + self@[id_of(d)].map_values(|m: u32| m as int + 39)
    }

    /// The members of the set that `d` encodes, listed.
    pub proof fn lemma_member_seq(&self, d: u64)
        requires
            self.wf(),
            self.valid(d),
        ensures
            self.member_seq(d).len() == self.members(d).len(),
            forall|x: int| self.member_seq(d).contains(x) <==> self.members(d).contains(x),
            forall|k: int| 0 <= k < low_seq(d, 40).len() ==> 0 <= #[trigger] self.member_seq(d)[k] < 40,
            forall|k: int|
                low_seq(d, 40).len() <= k < self.member_seq(d).len() ==> #[trigger] self.member_seq(
                    d,
                )[k] == self@[id_of(d)][k - low_seq(d, 40).len()] + 39,
            forall|a: int, b: int|
                0 <= a < b < self.member_seq(d).len() ==> self.member_seq(d)[a] < self.member_seq(d)[b],
    {
        lemma_low_seq(d, 40);
        self.lemma_members_len(d);
        assert(low_members_below(d, 40) =~= low_members(d));
        let ls = low_seq(d, 40);
        let hs = self@[id_of(d)].map_values(|m: u32| m as int + 39);
        let ms = self.member_seq(d);
        let list = self@[id_of(d)];
        assert forall|a: int, b: int| 0 <= a < b < ms.len() implies ms[a] < ms[b] by {
            if b < ls.len() {
            } else if a < ls.len() {
                assert(ms[a] == ls[a]);
                assert(ms[b] == hs[b - ls.len()]);
                assert(list[b - ls.len()] >= 1);
            } else {
                assert(ms[a] == hs[a - ls.len()]);
                assert(ms[b] == hs[b - ls.len()]);
                assert(list[a - ls.len()] < list[b - ls.len()]);
            }
        }
        assert forall|x: int| ms.contains(x) <==> self.members(d).contains(x) by {
            if ms.contains(x) {
                let k = choose|k: int| 0 <= k < ms.len() && ms[k] == x;
                if k < ls.len() {
                    assert(ls.contains(x));
                } else {
                    assert(hs[k - ls.len()] == x);
                    assert(hs.contains(x));
                }
            }
            if low_members(d).contains(x) {
                assert(ls.contains(x));
                let k = choose|k: int| 0 <= k < ls.len() && ls[k] == x;
                assert(ms[k] == x);
            }
            if high_members(self@[id_of(d)]).contains(x) {
                let k = choose|k: int| 0 <= k < hs.len() && hs[k] == x;
                assert(ms[k + ls.len()] == x);
            }
        }
    }

    /// Packs the members of `deps` among those of `all` into bits: bit `k` is
    /// set where the `k`-th member of `all` belongs to `deps`.
    pub fn compress(&self, deps: u64, all: u64) -> (r: u64)
        requires
            self.wf(),
            self.valid(deps),
            self.valid(all),
            self.members(all).len() <= 64,
        ensures
            compressed(*self, deps, all, r),
    {
        proof {
            lemma_id_fits(deps);
            lemma_id_fits(all);
            lemma_low_seq(all, 40);
            self.lemma_member_seq(all);
            self.lemma_members_len(deps);
            lemma_high_members_len(self@[id_of(deps)]);
            assert forall|k: u64| k < 64 implies !#[trigger] bit_set(0, k) by {
                assert(0u64 & (1u64 << k) == 0) by (bit_vector);
            }
        }
        let ghost ms = self.member_seq(all);
        let ghost ls = low_seq(all, 40);
        let mut result: u64 = 0;
        let mut index: u64 = 0;
        let mut i: u64 = 0;
        while i < 40
            invariant
                self.wf(),
                self.valid(deps),
                i <= 40,
                index == low_seq(all, i as int).len(),
                index <= i,
                forall|k: u64|
                    k < 64 ==> #[trigger] bit_set(result, k) == (k < index && self.members(deps).contains(
                        low_seq(all, i as int)[k as int],
                    )),
            decreases 40 - i,
        {
            proof {
                lemma_low_seq(all, i as int + 1);
                lemma_low_seq(all, i as int);
            }
            if all & (1u64 << i) != 0 {
                assert(low_seq(all, i as int + 1) =~= low_seq(all, i as int).push(i as int));
                let in_deps = deps & (1u64 << i) != 0;
                proof {
                    lemma_high_members_len(self@[id_of(deps)]);
                    assert(self.members(deps).contains(i as int) == in_deps);
                }
                if in_deps {
                    let ghost r0 = result;
                    result = result | (1u64 << index);
                    proof {
                        assert forall|k: u64| k < 64 implies #[trigger] bit_set(result, k) == (bit_set(r0, k)
                            || k == index) by {
                            lemma_set_one_bit(r0, index, k);
                        }
                    }
                }
                index = index + 1;
            } else {
                assert(low_seq(all, i as int + 1) =~= low_seq(all, i as int));
            }
            i = i + 1;
        }
        let id_all = (all >> 40) as usize;
        let id_deps = (deps >> 40) as usize;
        let list = &self.combinations[id_all];
        let own = &self.combinations[id_deps];
        assert(list@ == self@[id_of(all)]);
        assert(own@ == self@[id_of(deps)]);
        let mut p: usize = 0;
        while p < list.len()
            invariant
                self.wf(),
                self.valid(deps),
                self.valid(all),
                list@ == self@[id_of(all)],
                own@ == self@[id_of(deps)],
                ms == self.member_seq(all),
                ls == low_seq(all, 40),
                ms.len() <= 64,
                ms.len() == ls.len() + list@.len(),
                p <= list@.len(),
                index == ls.len() + p,
                forall|k: u64|
                    k < 64 ==> #[trigger] bit_set(result, k) == (k < index && self.members(deps).contains(
                        ms[k as int],
                    )),
            decreases list.len() - p,
        {
            let m = list[p];
            let mut found = false;
            let mut q: usize = 0;
            while q < own.len()
                invariant
                    q <= own@.len(),
                    found <==> exists|t: int| 0 <= t < q && own@[t] == m,
                decreases own.len() - q,
            {
                if own[q] == m {
                    found = true;
                }
                q = q + 1;
            }
            proof {
                lemma_sorted_len(list@);
                lemma_high_members_contains(own@, m);
                assert(ms[index as int] == m as int + 39);
                assert(list@[p as int] >= 1);
                assert(!low_members(deps).contains(m as int + 39));
                if found {
                    let t = choose|t: int| 0 <= t < q && own@[t] == m;
                    assert(own@.contains(m));
                }
                assert(self.members(deps).contains(ms[index as int]) == found);
            }
            if found {
                let ghost r0 = result;
                result = result | (1u64 << index);
                proof {
                    assert forall|k: u64| k < 64 implies #[trigger] bit_set(result, k) == (bit_set(r0, k)
                        || k == index) by {
                        lemma_set_one_bit(r0, index, k);
                    }
                }
            }
            index = index + 1;
            p = p + 1;
        }
        result
    }

    /// Unpacks bits of `union` into a word: the `k`-th member of `all`
    /// belongs to the result where bit `k` is set.
    pub fn decompress(&mut self, union: u64, all: u64) -> (r: u64)
        requires
            old(self).wf(),
            old(self).has_room(),
            old(self).valid(all),
            old(self).members(all).len() <= 64,
        ensures
            decompressed(*old(self), *final(self), all, union, r),
    {
        proof {
            lemma_id_fits(all);
            lemma_low_seq(all, 40);
            self.lemma_member_seq(all);
            assert forall|k: u64| k < 64 implies !#[trigger] bit_set(0, k) by {
                assert(0u64 & (1u64 << k) == 0) by (bit_vector);
            }
        }
        let ghost ms = self.member_seq(all);
        let ghost ls = low_seq(all, 40);
        let mut lower: u64 = 0;
        let mut index: u64 = 0;
        let mut i: u64 = 0;
        while i < 40
            invariant
                i <= 40,
                index == low_seq(all, i as int).len(),
                index <= i,
                forall|j: u64|
                    j < 64 ==> #[trigger] bit_set(lower, j) == (low_seq(all, i as int).contains(
                        j as int,
                    ) && bit_set(union, low_seq(all, i as int).index_of(j as int) as u64)),
            decreases 40 - i,
        {
            proof {
                lemma_low_seq(all, i as int + 1);
                lemma_low_seq(all, i as int);
            }
            let ghost s0 = low_seq(all, i as int);
            if all & (1u64 << i) != 0 {
                let s1 = Ghost(s0.push(i as int));
                assert(low_seq(all, i as int + 1) =~= s1@);
                proof {
                    assert forall|j: int| s0.contains(j) implies #[trigger] s1@.index_of(j) == s0.index_of(j) by {
                        lemma_index_of_push(s0, i as int, j);
                    }
                    lemma_index_of_push(s0, i as int, i as int);
                    assert(!s0.contains(i as int));
                }
                if union & (1u64 << index) != 0 {
                    let ghost r0 = lower;
                    lower = lower | (1u64 << i);
                    proof {
                        assert forall|j: u64| j < 64 implies #[trigger] bit_set(lower, j) == (bit_set(r0, j)
                            || j == i) by {
                            lemma_set_one_bit(r0, i, j);
                        }
                    }
                }
                index = index + 1;
            } else {
                assert(low_seq(all, i as int + 1) =~= s0);
            }
            i = i + 1;
        }
        let id_all = (all >> 40) as usize;
        let list = &self.combinations[id_all];
        assert(list@ == self@[id_of(all)]);
        proof {
            lemma_sorted_len(list@);
        }
        let mut high: Vec<u32> = Vec::new();
        let mut p: usize = 0;
        while p < list.len()
            invariant
                self.wf(),
                self.valid(all),
                list@ == self@[id_of(all)],
                sorted_list(list@),
                ms == self.member_seq(all),
                ls == low_seq(all, 40),
                ms.len() <= 64,
                ms.len() == ls.len() + list@.len(),
                p <= list@.len(),
                index == ls.len() + p,
                sorted_list(high@),
                high@.len() > 0 ==> exists|t: int| 0 <= t < p && high@.last() == #[trigger] list@[t],
                forall|x: u32|
                    high@.contains(x) <==> exists|t: int|
                        0 <= t < p && #[trigger] list@[t] == x && bit_set(union, (ls.len() + t) as u64),
            decreases list.len() - p,
        {
            let m = list[p];
            if union & (1u64 << index) != 0 {
                let ghost h0 = high@;
                proof {
                    if h0.len() > 0 {
                        let t = choose|t: int| 0 <= t < p && h0.last() == #[trigger] list@[t];
                        assert(list@[t] < list@[p as int]);
                    }
                }
                high.push(m);
                proof {
                    assert(high@.last() == list@[p as int]);
                    assert forall|x: u32| high@.contains(x) <==> exists|t: int|
                        0 <= t < p + 1 && #[trigger] list@[t] == x && bit_set(union, (ls.len() + t) as u64) by {
                        if high@.contains(x) {
                            let k = choose|k: int| 0 <= k < high@.len() && high@[k] == x;
                            if k < h0.len() {
                                assert(h0.contains(x));
                            } else {
                                assert(list@[p as int] == x);
                            }
                        }
                        if exists|t: int|
                            0 <= t < p + 1 && #[trigger] list@[t] == x && bit_set(union, (ls.len() + t) as u64) {
                            let t = choose|t: int|
                                0 <= t < p + 1 && #[trigger] list@[t] == x && bit_set(union, (ls.len() + t) as u64);
                            if t < p {
                                assert(h0.contains(x));
                                let k = choose|k: int| 0 <= k < h0.len() && h0[k] == x;
                                assert(high@[k] == x);
                            } else {
                                assert(high@[high@.len() - 1] == x);
                            }
                        }
                    }
                    assert forall|a: int, b: int| 0 <= a < b < high@.len() implies high@[a] < high@[b] by {
                        if b == high@.len() - 1 && a < h0.len() {
                            assert(h0[a] <= h0.last());
                        }
                    }
                }
            } else {
                proof {
                    assert forall|x: u32| high@.contains(x) <==> exists|t: int|
                        0 <= t < p + 1 && #[trigger] list@[t] == x && bit_set(union, (ls.len() + t) as u64) by {
                        if exists|t: int|
                            0 <= t < p + 1 && #[trigger] list@[t] == x && bit_set(union, (ls.len() + t) as u64) {
                            let t = choose|t: int|
                                0 <= t < p + 1 && #[trigger] list@[t] == x && bit_set(union, (ls.len() + t) as u64);
                            assert(t != p);
                        }
                    }
                }
            }
            index = index + 1;
            p = p + 1;
        }
        let ghost old_view = self@;
        let id = self.get_index_of_deps_combination(high);
        let r = lower | ((id as u64) << 40);
        proof {
            assert forall|j: u64| j < 40 implies #[trigger] bit_set(lower, j) == bit_set(lower & LOW_MASK, j) by {
                lemma_mask_bit(lower, j);
            }
            assert forall|j: u64| 40 <= j < 64 implies !#[trigger] bit_set(lower, j) by {
                if bit_set(lower, j) {
                    lemma_low_seq(all, 40);
                }
            }
            lemma_low_bits_above(lower);
            assert(lower == lower & LOW_MASK);
            assert forall|j: int| 0 <= j < 40 implies #[trigger] bit_set(r, j as u64) == bit_set(lower, j as u64) by {
                lemma_word_parts(lower, id as u64, j as u64);
            }
            lemma_word_parts(lower, id as u64, 0);
            let target = expanded(ms, union);
            lemma_high_members_len(high@);
            assert forall|x: int| #[trigger] self.members(r).contains(x) <==> target.contains(x) by {
                if low_members(r).contains(x) {
                    assert(bit_set(lower, x as u64));
                    let k = ls.index_of(x);
                    assert(ms[k] == x);
                }
                if high_members(high@).contains(x) {
                    let hs = high@.map_values(|m: u32| m as int + 39);
                    let k = choose|k: int| 0 <= k < hs.len() && hs[k] == x;
                    assert(high@.contains(high@[k]));
                    let t = choose|t: int|
                        0 <= t < list@.len() && #[trigger] list@[t] == high@[k] && bit_set(union, (ls.len() + t) as u64);
                    assert(ms[ls.len() + t] == x);
                }
                if target.contains(x) {
                    let k = choose|k: int| 0 <= k < ms.len() && bit_set(union, k as u64) && #[trigger] ms[k] == x;
                    if k < ls.len() {
                        assert(ls.contains(x));
                        assert(ls.index_of(x) == k) by {
                            lemma_index_of_sorted(ls, k);
                        }
                        assert(bit_set(lower, x as u64));
                        assert(bit_set(r, x as u64));
                    } else {
                        let t = k - ls.len();
                        assert(high@.contains(list@[t]));
                        lemma_high_members_contains(high@, list@[t]);
                    }
                }
            }
            assert(self.members(r) =~= target);
        }
        r
    }

    /// The id of `list`, which is interned first if it is not stored yet.
    pub fn get_index_of_deps_combination(&mut self, list: Vec<u32>) -> (r: usize)
        requires
            old(self).wf(),
            old(self).has_room() || old(self)@.contains(list@),
            sorted_list(list@),
        ensures
            final(self).wf(),
            final(self)@ == (if old(self)@.contains(list@) {
                old(self)@
            } else {
                old(self)@.push(list@)
            }),
            r < final(self)@.len(),
            final(self)@[r as int] == list@,
    {
        let key = key_of(&list);
        let ghost old_map = self.indices_by_key@;
        let ghost old_view = self@;
        let entry = self.indices_by_key.remove(&key);
        let n = self.combinations.len();
        match entry {
            None => {
                assert(!old_view.contains(list@)) by {
                    if old_view.contains(list@) {
                        let k = choose|k: int| 0 <= k < old_view.len() && old_view[k] == list@;
                        assert(old_map.contains_key(list_key(old_view[k])));
                    }
                }
                self.indices_by_key.insert(key, vec![n]);
                self.combinations.push(list);
                proof {
                    assert(self@ =~= old_view.push(list@));
                    assert(self.indices_by_key@[key]@ =~= seq![n]);
                    assert forall|i: int, j: int|
                        0 <= i < self@.len() && 0 <= j < self@.len() && #[trigger] self@[i]
                            == #[trigger] self@[j] implies i == j by {
                        if i < n && j == n {
                            assert(old_view.contains(self@[i]));
                        }
                        if j < n && i == n {
                            assert(old_view.contains(self@[j]));
                        }
                    }
                    assert forall|i: int| 0 <= i < self@.len() implies {
                        &&& self.indices_by_key@.contains_key(list_key(#[trigger] self@[i]))
                        &&& self.indices_by_key@[list_key(self@[i])]@.contains(i as usize)
                    } by {
                        if i < n {
                            assert(old_view[i] == self@[i]);
                            assert(old_map.contains_key(list_key(old_view[i])));
                        } else {
                            assert(self.indices_by_key@[key]@[0] == n);
                        }
                    }
                }
                n
            },
            Some(ids) => {
                let mut found: Option<usize> = None;
                let mut k: usize = 0;
                while k < ids.len()
                    invariant
                        k <= ids.len(),
                        self.combinations@ == old(self).combinations@,
                        self@ == old_view,
                        old_view.len() == n,
                        forall|t: int| 0 <= t < ids@.len() ==> ids@[t] < n,
                        match found {
                            Some(id) => id < n && old_view[id as int] == list@,
                            None => forall|t: int| 0 <= t < k ==> old_view[ids@[t] as int] != list@,
                        },
                    decreases ids.len() - k,
                {
                    let id = ids[k];
                    if found.is_none() && same_list(&self.combinations[id], &list) {
                        found = Some(id);
                    }
                    k = k + 1;
                }
                match found {
                    Some(id) => {
                        self.indices_by_key.insert(key, ids);
                        proof {
                            assert(self.indices_by_key@ =~= old_map);
                            assert(old_view.contains(list@));
                        }
                        id
                    },
                    None => {
                        assert(!old_view.contains(list@)) by {
                            if old_view.contains(list@) {
                                let t = choose|t: int| 0 <= t < old_view.len() && old_view[t] == list@;
                                assert(old_map[key]@.contains(t as usize));
                            }
                        }
                        let mut ids = ids;
                        let ghost old_ids = ids@;
                        ids.push(n);
                        self.indices_by_key.insert(key, ids);
                        self.combinations.push(list);
                        proof {
                            assert(self@ =~= old_view.push(list@));
                            assert(self.indices_by_key@[key]@ == old_ids.push(n));
                            assert forall|i: int, j: int|
                                0 <= i < self@.len() && 0 <= j < self@.len() && #[trigger] self@[i]
                                    == #[trigger] self@[j] implies i == j by {
                                if i < n && j == n {
                                    assert(old_view.contains(self@[i]));
                                }
                                if j < n && i == n {
                                    assert(old_view.contains(self@[j]));
                                }
                            }
                            assert forall|i: int| 0 <= i < self@.len() implies {
                                &&& self.indices_by_key@.contains_key(list_key(#[trigger] self@[i]))
                                &&& self.indices_by_key@[list_key(self@[i])]@.contains(i as usize)
                            } by {
                                if i < n {
                                    assert(old_view[i] == self@[i]);
                                    assert(old_map.contains_key(list_key(old_view[i])));
                                    if list_key(old_view[i]) == key {
                                        let t = choose|t: int| 0 <= t < old_ids.len() && old_ids[t] == i as usize;
                                        assert(self.indices_by_key@[key]@[t] == i as usize);
                                    }
                                } else {
                                    assert(self.indices_by_key@[key]@[old_ids.len() as int] == n);
                                }
                            }
                        }
                        n
                    },
                }
            },
        }
    }

    /// The word of the union of the sets that `d1` and `d2` encode, and of
    /// `index` where it is given. A list that the union needs is interned.
    pub fn combine_deps(&mut self, d1: u64, d2: u64, index: Option<i32>) -> (r: u64)
        requires
            old(self).wf(),
            old(self).has_room() || stored_union(*old(self), d1, d2, index),
            old(self).valid(d1),
            old(self).valid(d2),
            index.is_some() ==> index.unwrap() >= 0,
        ensures
            combined(*old(self), *final(self), d1, d2, index, r),
    {
        let ghost target = self.members(d1).union(self.members(d2)).union(index_members(index));
        let index_low: u64 = match index {
            Some(v) => if v < 40 {
                1u64 << (v as u64)
            } else {
                0
            },
            None => 0,
        };
        let index_high: bool = match index {
            Some(v) => v >= 40,
            None => false,
        };
        let combined = d1 | d2 | index_low;
        let lower = combined & LOW_MASK;
        proof {
            lemma_low_union(d1, d2);
            lemma_low_union(d1 | d2, index_low);
            lemma_id_fits(d1);
            lemma_id_fits(d2);
            if !index_high {
                assert(low_members(index_low) =~= index_members(index)) by {
                    if index.is_some() {
                        let v = index.unwrap();
                        assert forall|i: int| 0 <= i < 40 implies #[trigger] bit_set(
                            index_low,
                            i as u64,
                        ) == (i == v as int) by {
                            lemma_single_bit(v as u64, i as u64);
                        }
                    } else {
                        assert(index_low == 0);
                        assert forall|i: int| 0 <= i < 40 implies !#[trigger] bit_set(index_low, i as u64) by {
                            assert(0u64 & (1u64 << (i as u64)) == 0) by (bit_vector);
                        }
                    }
                }
            } else {
                assert(index_low == 0);
                assert forall|i: int| 0 <= i < 40 implies !#[trigger] bit_set(index_low, i as u64) by {
                    assert(0u64 & (1u64 << (i as u64)) == 0) by (bit_vector);
                }
                assert(low_members(index_low) =~= Set::empty());
            }
        }
        if !index_high && combined == lower {
            assert(d1 >> 40u64 == 0 && d2 >> 40u64 == 0 && lower >> 40u64 == 0) by (bit_vector)
                requires
                    d1 | d2 | index_low == (d1 | d2 | index_low) & 0xff_ffff_ffffu64,
                    lower == (d1 | d2 | index_low) & 0xff_ffff_ffffu64,
            ;
            proof {
                assert(high_members(self@[0]) =~= Set::empty());
                assert(self.members(lower) =~= target);
                assert(old(self)@.is_prefix_of(self@));
            }
            return lower;
        }
        if !index_high && (d1 >> 40) == (d2 >> 40) {
            let r = lower | (d1 & !LOW_MASK);
            proof {
                assert forall|i: int| 0 <= i < 40 implies #[trigger] bit_set(r, i as u64) == bit_set(
                    combined,
                    i as u64,
                ) by {
                    lemma_word_keep_id(combined, d1, i as u64);
                }
                lemma_word_keep_id(combined, d1, 0);
                assert(low_members(r) =~= low_members(combined));
                assert(self.members(r) =~= target);
                assert(old(self)@.is_prefix_of(self@));
            }
            return r;
        }
        let id1 = (d1 >> 40) as usize;
        let id2 = (d2 >> 40) as usize;
        assert(self.combinations@[id1 as int]@ == self@[id_of(d1)]);
        assert(self.combinations@[id2 as int]@ == self@[id_of(d2)]);
        let mut merged = merge_lists(&self.combinations[id1], &self.combinations[id2]);
        proof {
            lemma_high_members_of_union(self@[id_of(d1)], self@[id_of(d2)], merged@);
        }
        let ghost high_target = high_members(self@[id_of(d1)]).union(high_members(self@[id_of(d2)]));
        if index_high {
            let v = index.unwrap();
            let extra: Vec<u32> = vec![(v as u32) - 39];
            assert(extra@ =~= seq![((v as u32) - 39) as u32]);
            let ghost before = merged@;
            merged = merge_lists(&merged, &extra);
            proof {
                lemma_high_members_of_union(before, extra@, merged@);
                assert(high_members(extra@) =~= set![v as int]) by {
                    let t = extra@.map_values(|m: u32| m as int + 39);
                    assert(t =~= seq![v as int]);
                    assert forall|z: int| #[trigger] t.contains(z) <==> z == v as int by {
                        if z == v as int {
                            assert(t[0] == z);
                        }
                    }
                }
            }
        }
        proof {
            assert forall|x: int| x >= 40 implies (#[trigger] high_members(merged@).contains(x)
                == target.contains(x)) by {
                assert(!low_members(d1).contains(x));
                assert(!low_members(d2).contains(x));
                if !index_high {
                    assert(!index_members(index).contains(x));
                }
            }
            if exists|w: u64| self.valid(w) && self.members(w) == target {
                let w = choose|w: u64| self.valid(w) && self.members(w) == target;
                lemma_list_of_set(*self, w, merged@);
                assert(self@[id_of(w)] == merged@);
                assert(self@.contains(merged@));
            }
        }
        let ghost old_view = self@;
        let id = self.get_index_of_deps_combination(merged);
        let r = lower | ((id as u64) << 40);
        proof {
            assert(old_view.is_prefix_of(self@));
            assert(self@[id_of(d1)] == old_view[id_of(d1)]);
            assert(self@[id_of(d2)] == old_view[id_of(d2)]);
            assert forall|i: int| 0 <= i < 40 implies #[trigger] bit_set(r, i as u64) == bit_set(
                combined,
                i as u64,
            ) by {
                lemma_word_parts(combined, id as u64, i as u64);
            }
            lemma_word_parts(combined, id as u64, 0);
            assert(low_members(r) =~= low_members(combined));
            assert(self.members(r) =~= target);
        }
        r
    }
}

/// The members that the optional index of a new construction adds.
pub open spec fn index_members(index: Option<i32>) -> Set<int> {
    match index {
        Some(v) => set![v as int],
        None => Set::empty(),
    }
}

proof fn lemma_word_parts(c: u64, x: u64, i: u64)
    requires
        x <= 0xff_ffff,
        i < 40,
    ensures
        ((c & LOW_MASK) | (x << 40u64)) >> 40u64 == x,
        bit_set((c & LOW_MASK) | (x << 40u64), i) == bit_set(c, i),
{
    assert(((c & 0xff_ffff_ffffu64) | (x << 40u64)) >> 40u64 == x) by (bit_vector)
        requires
            x <= 0xff_ffff,
    ;
    assert(((c & 0xff_ffff_ffffu64) | (x << 40u64)) & (1u64 << i) != 0 <==> c & (1u64 << i) != 0)
        by (bit_vector)
        requires
            i < 40,
    ;
}

proof fn lemma_word_keep_id(c: u64, d: u64, i: u64)
    requires
        i < 40,
    ensures
        ((c & LOW_MASK) | (d & !LOW_MASK)) >> 40u64 == d >> 40u64,
        bit_set((c & LOW_MASK) | (d & !LOW_MASK), i) == bit_set(c, i),
{
    assert(((c & 0xff_ffff_ffffu64) | (d & !0xff_ffff_ffffu64)) >> 40u64 == d >> 40u64)
        by (bit_vector);
    assert(((c & 0xff_ffff_ffffu64) | (d & !0xff_ffff_ffffu64)) & (1u64 << i) != 0 <==> c & (1u64
        << i) != 0) by (bit_vector)
        requires
            i < 40,
    ;
}

proof fn lemma_single_bit(v: u64, i: u64)
    requires
        v < 40,
        i < 40,
    ensures
        bit_set(1u64 << v, i) == (i == v),
{
    assert((1u64 << v) & (1u64 << i) != 0 <==> i == v) by (bit_vector)
        requires
            v < 40,
            i < 40,
    ;
}

proof fn lemma_high_members_of_union(a: Seq<u32>, b: Seq<u32>, r: Seq<u32>)
    requires
        forall|x: u32| r.contains(x) <==> (a.contains(x) || b.contains(x)),
    ensures
        high_members(r) =~= high_members(a).union(high_members(b)),
{
    assert forall|z: int| #[trigger] high_members(r).contains(z) <==> (high_members(a).contains(z)
        || high_members(b).contains(z)) by {
        let ta = a.map_values(|m: u32| m as int + 39);
        let tb = b.map_values(|m: u32| m as int + 39);
        let tr = r.map_values(|m: u32| m as int + 39);
        if tr.contains(z) {
            let k = choose|k: int| 0 <= k < tr.len() && tr[k] == z;
            assert(r.contains(r[k]));
            if a.contains(r[k]) {
                let ka = choose|ka: int| 0 <= ka < a.len() && a[ka] == r[k];
                assert(ta[ka] == z);
            } else {
                let kb = choose|kb: int| 0 <= kb < b.len() && b[kb] == r[k];
                assert(tb[kb] == z);
            }
        }
        if ta.contains(z) {
            let k = choose|k: int| 0 <= k < ta.len() && ta[k] == z;
            assert(a.contains(a[k]));
            let kr = choose|kr: int| 0 <= kr < r.len() && r[kr] == a[k];
            assert(tr[kr] == z);
        }
        if tb.contains(z) {
            let k = choose|k: int| 0 <= k < tb.len() && tb[k] == z;
            assert(b.contains(b[k]));
            let kr = choose|kr: int| 0 <= kr < r.len() && r[kr] == b[k];
            assert(tr[kr] == z);
        }
    }
}

/// Merges two stored lists into the sorted list of their union.
fn merge_lists(a: &Vec<u32>, b: &Vec<u32>) -> (r: Vec<u32>)
    requires
        sorted_list(a@),
        sorted_list(b@),
    ensures
        sorted_list(r@),
        forall|x: u32| r@.contains(x) <==> (a@.contains(x) || b@.contains(x)),
{
    let mut r: Vec<u32> = Vec::new();
    let mut i: usize = 0;
    let mut j: usize = 0;
    while i < a.len() || j < b.len()
        invariant
            i <= a.len(),
            j <= b.len(),
            sorted_list(a@),
            sorted_list(b@),
            sorted_list(r@),
            forall|x: u32| r@.contains(x) <==> (a@.take(i as int).contains(x) || b@.take(
                j as int,
            ).contains(x)),
            r@.len() > 0 && i < a.len() ==> r@.last() < a@[i as int],
            r@.len() > 0 && j < b.len() ==> r@.last() < b@[j as int],
        decreases a.len() - i + b.len() - j,
    {
        let ghost r0 = r@;
        let ghost i0 = i as int;
        let ghost j0 = j as int;
        if j >= b.len() || (i < a.len() && a[i] < b[j]) {
            r.push(a[i]);
            i = i + 1;
        } else if i >= a.len() || b[j] < a[i] {
            r.push(b[j]);
            j = j + 1;
        } else {
            r.push(a[i]);
            i = i + 1;
            j = j + 1;
        }
        proof {
            assert forall|x: u32| r@.contains(x) <==> (a@.take(i as int).contains(x) || b@.take(
                j as int,
            ).contains(x)) by {
                assert(r@ =~= r0.push(r@.last()));
                if r@.contains(x) {
                    let k = choose|k: int| 0 <= k < r@.len() && r@[k] == x;
                    if k < r0.len() {
                        assert(r0.contains(x));
                        if a@.take(i0).contains(x) {
                            let ka = choose|ka: int| 0 <= ka < i0 && a@.take(i0)[ka] == x;
                            assert(a@.take(i as int)[ka] == x);
                        } else {
                            let kb = choose|kb: int| 0 <= kb < j0 && b@.take(j0)[kb] == x;
                            assert(b@.take(j as int)[kb] == x);
                        }
                    } else if i > i0 {
                        assert(a@.take(i as int)[i0] == x);
                    } else {
                        assert(b@.take(j as int)[j0] == x);
                    }
                }
                if a@.take(i as int).contains(x) {
                    let ka = choose|ka: int| 0 <= ka < i && a@.take(i as int)[ka] == x;
                    if ka < i0 {
                        assert(a@.take(i0)[ka] == x);
                        assert(r0.contains(x));
                        let k = choose|k: int| 0 <= k < r0.len() && r0[k] == x;
                        assert(r@[k] == x);
                    } else {
                        assert(r@[r@.len() - 1] == x);
                    }
                }
                if b@.take(j as int).contains(x) {
                    let kb = choose|kb: int| 0 <= kb < j && b@.take(j as int)[kb] == x;
                    if kb < j0 {
                        assert(b@.take(j0)[kb] == x);
                        assert(r0.contains(x));
                        let k = choose|k: int| 0 <= k < r0.len() && r0[k] == x;
                        assert(r@[k] == x);
                    } else {
                        assert(r@[r@.len() - 1] == x);
                    }
                }
            }
        }
    }
    assert(a@.take(a@.len() as int) =~= a@);
    assert(b@.take(b@.len() as int) =~= b@);
    r
}

/// The key under which `list` is indexed.
fn key_of(list: &Vec<u32>) -> (r: u64)
    ensures
        r == list_key(list@),
{
    let mut sum: u32 = 0;
    let mut sum_sq: u32 = 0;
    let mut i: usize = 0;
    while i < list.len()
        invariant
            i <= list.len(),
            sum == list_sum(list@.take(i as int)),
            sum_sq == list_sum_sq(list@.take(i as int)),
        decreases list.len() - i,
    {
        let x = list[i];
        assert(list@.take(i as int + 1).drop_last() =~= list@.take(i as int));
        sum = sum.wrapping_add(x);
        sum_sq = sum_sq.wrapping_add(x.wrapping_mul(x));
        i = i + 1;
    }
    assert(list@.take(list@.len() as int) =~= list@);
    ((sum as u64) << 32u64) | (sum_sq as u64)
}

/// The two lists are equal.
fn same_list(a: &Vec<u32>, b: &Vec<u32>) -> (r: bool)
    ensures
        r == (a@ == b@),
{
    if a.len() != b.len() {
        return false;
    }
    let mut i: usize = 0;
    while i < a.len()
        invariant
            a@.len() == b@.len(),
            i <= a.len(),
            forall|k: int| 0 <= k < i ==> a@[k] == b@[k],
        decreases a.len() - i,
    {
        if a[i] != b[i] {
            return false;
        }
        i = i + 1;
    }
    assert(a@ =~= b@);
    true
}

proof fn lemma_sorted_unique(a: Seq<u32>, b: Seq<u32>)
    requires
        sorted_list(a),
        sorted_list(b),
        forall|x: u32| a.contains(x) <==> b.contains(x),
    ensures
        a == b,
    decreases a.len(),
{
    if a.len() == 0 {
        if b.len() > 0 {
            assert(b.contains(b[0]));
        }
        assert(a =~= b);
    } else {
        if b.len() == 0 {
            assert(a.contains(a[0]));
        }
        assert(a.contains(a[0]));
        assert(b.contains(b[0]));
        let ka = choose|k: int| 0 <= k < a.len() && a[k] == b[0];
        let kb = choose|k: int| 0 <= k < b.len() && b[k] == a[0];
        if ka > 0 {
            assert(a[0] < a[ka]);
        }
        if kb > 0 {
            assert(b[0] < b[kb]);
        }
        assert(a[0] == b[0]);
        let a1 = a.drop_first();
        let b1 = b.drop_first();
        assert forall|x: u32| a1.contains(x) <==> b1.contains(x) by {
            if a1.contains(x) {
                let k = choose|k: int| 0 <= k < a1.len() && a1[k] == x;
                assert(a[k + 1] == x);
                assert(a[0] < a[k + 1]);
                assert(b.contains(x));
                let j = choose|j: int| 0 <= j < b.len() && b[j] == x;
                assert(j != 0);
                assert(b1[j - 1] == x);
            }
            if b1.contains(x) {
                let k = choose|k: int| 0 <= k < b1.len() && b1[k] == x;
                assert(b[k + 1] == x);
                assert(b[0] < b[k + 1]);
                assert(a.contains(x));
                let j = choose|j: int| 0 <= j < a.len() && a[j] == x;
                assert(j != 0);
                assert(a1[j - 1] == x);
            }
        }
        lemma_sorted_unique(a1, b1);
        assert(a =~= seq![a[0]] + a1);
        assert(b =~= seq![b[0]] + b1);
    }
}

proof fn lemma_high_members_contains(s: Seq<u32>, x: u32)
    ensures
        high_members(s).contains(x as int + 39) == s.contains(x),
{
    let t = s.map_values(|m: u32| m as int + 39);
    if s.contains(x) {
        let k = choose|k: int| 0 <= k < s.len() && s[k] == x;
        assert(t[k] == x as int + 39);
    }
    if t.contains(x as int + 39) {
        let k = choose|k: int| 0 <= k < t.len() && t[k] == x as int + 39;
        assert(s[k] == x);
    }
}

proof fn lemma_low_bits_eq(a: u64, b: u64, n: u64)
    requires
        n <= 40,
        forall|i: u64| i < n ==> bit_set(a, i) == bit_set(b, i),
    ensures
        a & ((1u64 << n) - 1) as u64 == b & ((1u64 << n) - 1) as u64,
    decreases n,
{
    if n == 0 {
        assert(a & ((1u64 << 0u64) - 1) as u64 == b & ((1u64 << 0u64) - 1) as u64) by (bit_vector);
    } else {
        let m = (n - 1) as u64;
        lemma_low_bits_eq(a, b, m);
        assert(bit_set(a, m) == bit_set(b, m));
        assert(a & ((1u64 << n) - 1) as u64 == b & ((1u64 << n) - 1) as u64) by (bit_vector)
            requires
                n == m + 1,
                m < 40,
                a & ((1u64 << m) - 1) as u64 == b & ((1u64 << m) - 1) as u64,
                (a & (1u64 << m) != 0) == (b & (1u64 << m) != 0),
        ;
    }
}

/// The members that the bits of `union` pick out of `ms`.
pub open spec fn expanded(ms: Seq<int>, union: u64) -> Set<int> {
    Set::new(|x: int| exists|k: int| 0 <= k < ms.len() && bit_set(union, k as u64) && #[trigger] ms[k] == x)
}

/// The positions `0..n` of the set bits of `d`, in increasing order.
pub open spec fn low_seq(d: u64, n: int) -> Seq<int>
    decreases n,
{
    if n <= 0 {
        Seq::empty()
    } else {
        low_seq(d, n - 1) + if bit_set(d, (n - 1) as u64) {
            seq![n - 1]
        } else {
            Seq::<int>::empty()
        }
    }
}

proof fn lemma_low_seq(d: u64, n: int)
    requires
        0 <= n <= 64,
    ensures
        low_seq(d, n).len() == low_members_below(d, n).len(),
        low_seq(d, n).len() <= n,
        forall|k: int| 0 <= k < low_seq(d, n).len() ==> 0 <= #[trigger] low_seq(d, n)[k] < n,
        forall|a: int, b: int| 0 <= a < b < low_seq(d, n).len() ==> low_seq(d, n)[a] < low_seq(d, n)[b],
        forall|x: int| low_seq(d, n).contains(x) <==> (0 <= x < n && bit_set(d, x as u64)),
        forall|k: int| 0 <= k < low_seq(d, n).len() ==> bit_set(d, #[trigger] low_seq(d, n)[k] as u64),
    decreases n,
{
    lemma_low_members_finite(d, n);
    if n == 0 {
        assert(low_members_below(d, 0) =~= Set::empty());
    } else {
        lemma_low_seq(d, n - 1);
        lemma_low_members_finite(d, n - 1);
        let s0 = low_seq(d, n - 1);
        if bit_set(d, (n - 1) as u64) {
            assert(low_seq(d, n) =~= s0.push(n - 1));
            assert(low_members_below(d, n) =~= low_members_below(d, n - 1).insert(n - 1));
            assert forall|x: int| low_seq(d, n).contains(x) <==> (0 <= x < n && bit_set(d, x as u64)) by {
                if x == n - 1 {
                    assert(low_seq(d, n)[s0.len() as int] == x);
                }
                if 0 <= x < n - 1 && bit_set(d, x as u64) {
                    assert(s0.contains(x));
                    let k = choose|k: int| 0 <= k < s0.len() && s0[k] == x;
                    assert(low_seq(d, n)[k] == x);
                }
                if low_seq(d, n).contains(x) {
                    let k = choose|k: int| 0 <= k < low_seq(d, n).len() && low_seq(d, n)[k] == x;
                    if k < s0.len() {
                        assert(s0.contains(x));
                    }
                }
            }
        } else {
            assert(low_seq(d, n) =~= s0);
            assert(low_members_below(d, n) =~= low_members_below(d, n - 1));
        }
    }
}

proof fn lemma_index_of_sorted(s: Seq<int>, k: int)
    requires
        0 <= k < s.len(),
        forall|a: int, b: int| 0 <= a < b < s.len() ==> s[a] < s[b],
    ensures
        s.index_of(s[k]) == k,
{
    assert(s.contains(s[k]));
    let j = s.index_of(s[k]);
    assert(0 <= j < s.len() && s[j] == s[k]);
    if j < k {
        assert(s[j] < s[k]);
    }
    if k < j {
        assert(s[k] < s[j]);
    }
}

proof fn lemma_index_of_push(s: Seq<int>, x: int, j: int)
    requires
        forall|a: int, b: int| 0 <= a < b < s.len() ==> s[a] < s[b],
        forall|k: int| 0 <= k < s.len() ==> s[k] < x,
        s.contains(j) || j == x,
    ensures
        s.contains(j) ==> s.push(x).index_of(j) == s.index_of(j),
        j == x ==> s.push(x).index_of(j) == s.len(),
        !s.contains(x),
{
    let t = s.push(x);
    assert forall|a: int, b: int| 0 <= a < b < t.len() implies t[a] < t[b] by {
        if b == s.len() {
            assert(t[a] == s[a]);
        }
    }
    if s.contains(x) {
        let k = choose|k: int| 0 <= k < s.len() && s[k] == x;
    }
    if s.contains(j) {
        let k = choose|k: int| 0 <= k < s.len() && s[k] == j;
        lemma_index_of_sorted(s, k);
        assert(t[k] == j);
        lemma_index_of_sorted(t, k);
    }
    if j == x {
        assert(t[s.len() as int] == x);
        lemma_index_of_sorted(t, s.len() as int);
    }
}

proof fn lemma_set_one_bit(r: u64, index: u64, k: u64)
    requires
        index < 64,
        k < 64,
    ensures
        bit_set(r | (1u64 << index), k) == (bit_set(r, k) || k == index),
{
    assert((r | (1u64 << index)) & (1u64 << k) != 0 <==> (r & (1u64 << k) != 0 || k == index))
        by (bit_vector)
        requires
            index < 64,
            k < 64,
    ;
}

proof fn lemma_mask_bit(x: u64, j: u64)
    requires
        j < 40,
    ensures
        bit_set(x, j) == bit_set(x & LOW_MASK, j),
{
    assert(x & (1u64 << j) != 0 <==> (x & 0xff_ffff_ffffu64) & (1u64 << j) != 0) by (bit_vector)
        requires
            j < 40,
    ;
}

proof fn lemma_low_bits_above(x: u64)
    requires
        forall|j: u64| 40 <= j < 64 ==> !#[trigger] bit_set(x, j),
    ensures
        x == x & LOW_MASK,
{
    assert(!bit_set(x, 40));
    assert(!bit_set(x, 41));
    assert(!bit_set(x, 42));
    assert(!bit_set(x, 43));
    assert(!bit_set(x, 44));
    assert(!bit_set(x, 45));
    assert(!bit_set(x, 46));
    assert(!bit_set(x, 47));
    assert(!bit_set(x, 48));
    assert(!bit_set(x, 49));
    assert(!bit_set(x, 50));
    assert(!bit_set(x, 51));
    assert(!bit_set(x, 52));
    assert(!bit_set(x, 53));
    assert(!bit_set(x, 54));
    assert(!bit_set(x, 55));
    assert(!bit_set(x, 56));
    assert(!bit_set(x, 57));
    assert(!bit_set(x, 58));
    assert(!bit_set(x, 59));
    assert(!bit_set(x, 60));
    assert(!bit_set(x, 61));
    assert(!bit_set(x, 62));
    assert(!bit_set(x, 63));
    assert(x == x & 0xff_ffff_ffffu64) by (bit_vector)
        requires
            x & (1u64 << 40u64) == 0,
            x & (1u64 << 41u64) == 0,
            x & (1u64 << 42u64) == 0,
            x & (1u64 << 43u64) == 0,
            x & (1u64 << 44u64) == 0,
            x & (1u64 << 45u64) == 0,
            x & (1u64 << 46u64) == 0,
            x & (1u64 << 47u64) == 0,
            x & (1u64 << 48u64) == 0,
            x & (1u64 << 49u64) == 0,
            x & (1u64 << 50u64) == 0,
            x & (1u64 << 51u64) == 0,
            x & (1u64 << 52u64) == 0,
            x & (1u64 << 53u64) == 0,
            x & (1u64 << 54u64) == 0,
            x & (1u64 << 55u64) == 0,
            x & (1u64 << 56u64) == 0,
            x & (1u64 << 57u64) == 0,
            x & (1u64 << 58u64) == 0,
            x & (1u64 << 59u64) == 0,
            x & (1u64 << 60u64) == 0,
            x & (1u64 << 61u64) == 0,
            x & (1u64 << 62u64) == 0,
            x & (1u64 << 63u64) == 0,
    ;
}

/// The number of members that two stored lists share.
fn count_common(v1: &Vec<u32>, v2: &Vec<u32>) -> (r: u64)
    requires
        sorted_list(v1@),
        sorted_list(v2@),
    ensures
        r == high_members(v1@).intersect(high_members(v2@)).len(),
{
    let mut r: u64 = 0;
    let mut i: usize = 0;
    proof {
        lemma_sorted_len(v1@);
        assert(high_members(v1@.take(0)) =~= Set::empty());
        assert(high_members(v1@.take(0)).intersect(high_members(v2@)) =~= Set::empty());
    }
    while i < v1.len()
        invariant
            i <= v1.len(),
            v1@.len() <= u32::MAX,
            sorted_list(v1@),
            sorted_list(v2@),
            r <= i,
            r == high_members(v1@.take(i as int)).intersect(high_members(v2@)).len(),
        decreases v1.len() - i,
    {
        let x = v1[i];
        let mut found = false;
        let mut j: usize = 0;
        while j < v2.len()
            invariant
                j <= v2.len(),
                found <==> exists|k: int| 0 <= k < j && v2@[k] == x,
            decreases v2.len() - j,
        {
            if v2[j] == x {
                found = true;
            }
            j = j + 1;
        }
        let ghost prev = high_members(v1@.take(i as int));
        let ghost next = high_members(v1@.take(i as int + 1));
        proof {
            assert(v1@.take(i as int + 1) =~= v1@.take(i as int).push(x));
            assert(v1@.take(i as int + 1).map_values(|m: u32| m as int + 39) =~= v1@.take(
                i as int,
            ).map_values(|m: u32| m as int + 39).push(x as int + 39));
            lemma_high_members_push(v1@.take(i as int), x);
            assert(!prev.contains(x as int + 39)) by {
                if prev.contains(x as int + 39) {
                    let t = v1@.take(i as int).map_values(|m: u32| m as int + 39);
                    let k = choose|k: int| 0 <= k < t.len() && t[k] == x as int + 39;
                    assert(v1@[k] < v1@[i as int]);
                }
            }
            lemma_high_members_len(v1@.take(i as int));
            lemma_high_members_len(v2@);
            lemma_len_intersect(prev, high_members(v2@));
            if found {
                let k = choose|k: int| 0 <= k < j && v2@[k] == x;
                let t2 = v2@.map_values(|m: u32| m as int + 39);
                assert(t2[k] == x as int + 39);
                assert(high_members(v2@).contains(x as int + 39));
                assert(next.intersect(high_members(v2@)) =~= prev.intersect(
                    high_members(v2@),
                ).insert(x as int + 39));
            } else {
                assert(!high_members(v2@).contains(x as int + 39)) by {
                    if high_members(v2@).contains(x as int + 39) {
                        let t2 = v2@.map_values(|m: u32| m as int + 39);
                        let k = choose|k: int| 0 <= k < t2.len() && t2[k] == x as int + 39;
                        assert(v2@[k] == x);
                    }
                }
                assert(next.intersect(high_members(v2@)) =~= prev.intersect(high_members(v2@)));
            }
        }
        if found {
            r = r + 1;
        }
        i = i + 1;
    }
    assert(v1@.take(v1@.len() as int) =~= v1@);
    r
}

} // verus!
