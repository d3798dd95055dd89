use ruler_compass::hashset2::{HashMap2, HashSet2, WithTwoHashes};

#[derive(Clone, Copy, Debug)]
struct HT2(f64);

impl WithTwoHashes for HT2 {
    fn spec_hash1(&self) -> u64 {
        self.hash1()
    }

    fn spec_hash2(&self) -> u64 {
        self.hash2()
    }

    fn spec_same(&self, other: &HT2) -> bool {
        self.same_as(other)
    }

    fn hash1(&self) -> u64 {
        (self.0 * 1000.0) as i32 as u64
    }

    fn hash2(&self) -> u64 {
        (self.0 * 1000.5) as i32 as u64
    }

    fn same_as(&self, other: &HT2) -> bool {
        (other.0 - self.0).abs() < 1e-10
    }
}

#[test]
fn test_hash_set_insert_and_check() {
    let values = [HT2(0.2), HT2(0.3), HT2(0.19999999999999)];

    assert_eq!((values[0].0 * 1000.0) as i32, 200);
    assert_eq!((values[2].0 * 1000.0) as i32, 199);
    assert_eq!((values[0].0 * 1000.5) as i32, 200);
    assert_eq!((values[2].0 * 1000.5) as i32, 200);
    let mut hs: HashSet2<HT2> = HashSet2::new();
    let v0 = hs.insert(values[0]);
    assert!(v0.0 == values[0].0);
    assert!(hs.contains(values[2]));
    let v0a = hs.insert(values[0]);
    assert!(v0a.0 == values[0].0);
    assert_eq!(hs.len(), 1);
    let v2 = hs.insert(values[2]);
    assert!(v2.0 == values[0].0);
    assert_eq!(hs.len(), 1);
    hs.insert(values[1]);
    assert_eq!(hs.len(), 2);
}

#[test]
fn test_hash_map_insert_and_check() {
    let values = [HT2(0.2), HT2(0.3), HT2(0.19999999999999)];

    assert_eq!((values[0].0 * 1000.0) as i32, 200);
    assert_eq!((values[2].0 * 1000.0) as i32, 199);
    assert_eq!((values[0].0 * 1000.5) as i32, 200);
    assert_eq!((values[2].0 * 1000.5) as i32, 200);
    let mut hm: HashMap2<HT2, i32> = HashMap2::new();
    hm.insert_if_new(values[0], 1);
    hm.insert_if_new(values[0], 2);
    assert_eq!(hm.len(), 1);
    hm.insert_if_new(values[2], 3);
    assert_eq!(hm.len(), 1);

    // A stored value is never replaced.
    let v0_back = hm.get(values[0]);
    assert_eq!(v0_back, Some(1));

    let v2_back = hm.get(values[2]);
    assert_eq!(v2_back, Some(1));
}

#[test]
fn empty_set_contains_nothing() {
    let hs: HashSet2<HT2> = HashSet2::new();
    assert_eq!(hs.len(), 0);
    assert!(!hs.contains(HT2(1.0)));
    assert!(hs.get(HT2(1.0)).is_none());
    assert!(hs.as_vector().is_empty());
}

#[test]
fn set_get_returns_stored_element() {
    let mut hs: HashSet2<HT2> = HashSet2::new();
    hs.insert(HT2(0.2));
    let got = hs.get(HT2(0.19999999999999)).unwrap();
    assert_eq!(got.0, 0.2);
    assert!(hs.get(HT2(0.7)).is_none());
}

#[test]
fn set_slow_remove_drops_matching() {
    let mut hs: HashSet2<HT2> = HashSet2::new();
    hs.insert(HT2(0.2));
    hs.insert(HT2(0.3));
    hs.insert(HT2(0.4));
    hs.slow_remove(HT2(0.3));
    assert_eq!(hs.len(), 2);
    assert!(!hs.contains(HT2(0.3)));
    assert!(hs.contains(HT2(0.2)));
    assert!(hs.contains(HT2(0.4)));
}

#[test]
fn set_iter_and_vector_in_insertion_order() {
    let mut hs: HashSet2<HT2> = HashSet2::new();
    hs.insert(HT2(0.5));
    hs.insert(HT2(0.25));
    let v = hs.as_vector();
    assert_eq!(v.len(), 2);
    assert_eq!(v[0].0, 0.5);
    assert_eq!(v[1].0, 0.25);
    let mut it = hs.iter();
    assert_eq!(it.next().unwrap().0, 0.5);
    assert_eq!(it.next().unwrap().0, 0.25);
    assert!(it.next().is_none());
}

#[test]
fn map_contains_key_and_missing_get() {
    let mut hm: HashMap2<HT2, u32> = HashMap2::new();
    assert!(!hm.contains_key(HT2(1.0)));
    hm.insert_if_new(HT2(1.0), 7);
    assert!(hm.contains_key(HT2(1.0)));
    assert_eq!(hm.get(HT2(2.0)), None);
    assert_eq!(hm.get(HT2(1.0)), Some(7));
}

#[test]
fn inserting_keeps_what_was_found() {
    let mut found: HashSet2<HT2> = HashSet2::new();
    found.insert(HT2(0.1));
    for x in [0.2, 0.1, 0.3, 0.19999999999999] {
        found.insert(HT2(x));
        assert!(found.contains(HT2(0.1)));
        assert!(found.contains(HT2(0.2)));
    }
    assert_eq!(found.len(), 3);
}

#[test]
fn as_vector_leaves_out_matching_elements() {
    let mut hs: HashSet2<HT2> = HashSet2::new();
    hs.insert(HT2(0.2));
    hs.insert(HT2(0.7));
    let v = hs.as_vector();
    assert_eq!(v.len(), 2);
    for i in 0..v.len() {
        for j in (i + 1)..v.len() {
            assert!(!v[i].same_as(&v[j]));
        }
    }
}

#[test]
fn removed_value_is_no_longer_contained() {
    let mut hs: HashSet2<HT2> = HashSet2::new();
    hs.insert(HT2(0.2));
    hs.insert(HT2(0.5));
    hs.slow_remove(HT2(0.19999999999999));
    assert!(!hs.contains(HT2(0.2)));
    assert!(hs.get(HT2(0.2)).is_none());
    assert!(hs.contains(HT2(0.5)));
    assert_eq!(hs.len(), 1);
}

#[test]
fn map_keeps_first_value_for_a_key() {
    let mut hm: HashMap2<HT2, u32> = HashMap2::new();
    hm.insert_if_new(HT2(0.3), 1);
    hm.insert_if_new(HT2(0.3), 2);
    assert_eq!(hm.get(HT2(0.3)), Some(1));
    assert_eq!(hm.len(), 1);
    assert!(hm.get(HT2(0.9)).is_none());
    assert!(!hm.contains_key(HT2(0.9)));
}
