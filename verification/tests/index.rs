use sashstore::indexmap::hash::{make_hash, IndexHasherBuilder};
use sashstore::indexmap::{Index, IndexError, IndexValue, Parameters, Probe};

fn key(i: usize) -> Vec<u8> {
    format!("key-{}", i).into_bytes()
}

fn val(flags: u32, data: &[u8]) -> IndexValue {
    IndexValue { flags, data: data.to_vec() }
}

#[test]
fn insert_get_round_trip() {
    let mut idx = Index::with_capacity(16);
    assert!(idx.insert(b"foo".to_vec(), val(7, b"bar")).unwrap().is_none());
    let got = idx.get(b"foo").unwrap();
    assert_eq!(got.flags, 7);
    assert_eq!(got.data, b"bar".to_vec());
    let len_before = idx.len();

    let prior = idx.insert(b"foo".to_vec(), val(9, b"baz")).unwrap().unwrap();
    assert_eq!(prior.flags, 7);
    assert_eq!(prior.data, b"bar".to_vec());
    let got = idx.get(b"foo").unwrap();
    assert_eq!(got.flags, 9);
    assert_eq!(got.data, b"baz".to_vec());
    assert_eq!(idx.len(), len_before);
}

#[test]
fn get_miss_returns_absence() {
    let mut idx = Index::with_capacity(8);
    assert!(idx.get(b"nope").is_none());
    assert!(!idx.contains_key(b"nope"));
    idx.insert(b"other".to_vec(), val(1, b"x")).unwrap();
    assert!(idx.get(b"nope").is_none());
    assert!(idx.contains_key(b"other"));
}

#[test]
fn last_insert_wins_across_distinct_keys() {
    let mut idx = Index::with_capacity(8);
    for i in 0..5 {
        idx.insert(key(i), val(i as u32, b"first")).unwrap();
    }
    idx.insert(key(2), val(22, b"second")).unwrap();
    idx.insert(key(4), val(44, b"second")).unwrap();
    for i in 0..5 {
        let got = idx.get(&key(i)).unwrap();
        match i {
            2 => assert_eq!((got.flags, got.data.as_slice()), (22, b"second".as_slice())),
            4 => assert_eq!((got.flags, got.data.as_slice()), (44, b"second".as_slice())),
            _ => assert_eq!((got.flags, got.data.as_slice()), (i as u32, b"first".as_slice())),
        }
    }
    assert_eq!(idx.len(), 5);
}

#[test]
fn rehash_keeps_every_entry() {
    // Capacity 16 with the default max load 7/10 and growth 2: twenty
    // distinct keys force rehashes up to at least 32 slots.
    let mut idx = Index::with_capacity(16);
    for i in 0..20 {
        idx.insert(key(i), val(i as u32, format!("value-{}", i).as_bytes())).unwrap();
    }
    assert!(idx.capacity() >= 32);
    assert_eq!(idx.len(), 20);
    for i in 0..20 {
        let got = idx.get(&key(i)).unwrap();
        assert_eq!(got.flags, i as u32);
        assert_eq!(got.data, format!("value-{}", i).into_bytes());
    }
}

#[test]
fn probe_termination_under_load() {
    // Inserting as many distinct keys as the initial capacity succeeds:
    // the load threshold trips first and grows the table.
    let cap = 8;
    let mut idx = Index::with_capacity(cap);
    for i in 0..cap {
        assert!(idx.insert(key(i), val(0, b"v")).is_ok());
    }
    assert!(idx.capacity() > cap);
    for i in 0..cap {
        assert!(idx.get(&key(i)).is_some());
    }
}

#[test]
fn rehash_triggers_exactly_at_the_load_threshold() {
    // With sixteen slots and max load 7/10, the table holds eleven
    // entries (11/16 <= 0.7); the twelfth insert would pass the
    // threshold, so exactly that insert doubles the capacity.
    let mut idx = Index::with_capacity(16);
    for i in 0..11 {
        idx.insert(key(i), val(0, b"v")).unwrap();
        assert_eq!(idx.capacity(), 16);
    }
    idx.insert(key(11), val(0, b"v")).unwrap();
    assert_eq!(idx.capacity(), 32);
}

#[test]
fn load_factor_stays_within_max_load() {
    let mut idx = Index::with_capacity(4);
    for i in 0..50 {
        idx.insert(key(i), val(0, b"v")).unwrap();
        assert!(idx.len() * 10 <= idx.capacity() * 7);
    }
}

#[test]
fn capacity_never_shrinks_below_request() {
    let idx = Index::with_capacity(1000);
    assert!(idx.capacity() >= 1000);
    let idx = Index::with_capacity(0);
    assert!(idx.capacity() >= 1);
    assert_eq!(idx.len(), 0);
}

#[test]
fn linear_probe_parameters_work() {
    let params = Parameters {
        max_load_num: 1,
        max_load_den: 2,
        growth_num: 3,
        growth_den: 2,
        probe: Probe::Linear,
        hasher_builder: IndexHasherBuilder,
    };
    let mut idx = Index::with_capacity_and_parameters(10, params);
    for i in 0..30 {
        idx.insert(key(i), val(i as u32, b"lin")).unwrap();
        assert!(idx.len() * 2 <= idx.capacity());
    }
    for i in 0..30 {
        assert_eq!(idx.get(&key(i)).unwrap().flags, i as u32);
    }
}

#[test]
fn remove_returns_the_stored_value() {
    let mut idx = Index::with_capacity(8);
    idx.insert(b"foo".to_vec(), val(7, b"bar")).unwrap();
    idx.insert(b"baz".to_vec(), val(1, b"qux")).unwrap();
    let removed = idx.remove(b"foo").unwrap();
    assert_eq!(removed.flags, 7);
    assert_eq!(removed.data, b"bar".to_vec());
    assert!(idx.get(b"foo").is_none());
    assert_eq!(idx.len(), 1);
    assert_eq!(idx.get(b"baz").unwrap().flags, 1);
}

#[test]
fn remove_of_absent_key_changes_nothing() {
    let mut idx = Index::with_capacity(8);
    idx.insert(b"foo".to_vec(), val(7, b"bar")).unwrap();
    assert!(idx.remove(b"nope").is_none());
    assert_eq!(idx.len(), 1);
    assert_eq!(idx.get(b"foo").unwrap().flags, 7);
}

#[test]
fn tombstones_keep_other_probe_chains_intact() {
    // Fill a small table so keys collide, then remove entries in the
    // middle of probe chains: every surviving key must stay reachable.
    let mut idx = Index::with_capacity(16);
    for i in 0..10 {
        idx.insert(key(i), val(i as u32, b"v")).unwrap();
    }
    for i in 0..10 {
        if i % 2 == 0 {
            assert!(idx.remove(&key(i)).is_some());
        }
    }
    assert_eq!(idx.len(), 5);
    for i in 0..10 {
        if i % 2 == 0 {
            assert!(idx.get(&key(i)).is_none());
        } else {
            assert_eq!(idx.get(&key(i)).unwrap().flags, i as u32);
        }
    }
}

#[test]
fn reinsert_after_remove_reuses_the_table() {
    let mut idx = Index::with_capacity(8);
    idx.insert(b"foo".to_vec(), val(1, b"one")).unwrap();
    idx.remove(b"foo").unwrap();
    assert!(idx.insert(b"foo".to_vec(), val(2, b"two")).unwrap().is_none());
    let got = idx.get(b"foo").unwrap();
    assert_eq!(got.flags, 2);
    assert_eq!(got.data, b"two".to_vec());
    assert_eq!(idx.len(), 1);
}

#[test]
fn quadratic_probe_exhaustion_is_reported_and_harmless() {
    // On a table of four slots the quadratic walk for a key of hash h
    // only ever visits slots h%4 and (h+2)%4. Pick keys by their hash so
    // that both slots of a third key's walk are filled while the load
    // factor (here 9/10) does not yet ask for growth: its insert must
    // report an exhausted walk and leave the table untouched.
    let hb = IndexHasherBuilder;
    let pick = |residue: u64, skip: &[Vec<u8>]| -> Vec<u8> {
        let mut i = 0u64;
        loop {
            let cand = format!("probe-{}", i).into_bytes();
            if make_hash(&hb, &cand) % 4 == residue && !skip.contains(&cand) {
                return cand;
            }
            i += 1;
        }
    };
    let key_a = pick(0, &[]);
    let key_b = pick(2, &[]);
    let key_c = pick(0, &[key_a.clone()]);

    let params = Parameters {
        max_load_num: 9,
        max_load_den: 10,
        growth_num: 2,
        growth_den: 1,
        probe: Probe::Quadratic,
        hasher_builder: IndexHasherBuilder,
    };
    let mut idx = Index::with_capacity_and_parameters(4, params);
    assert_eq!(idx.capacity(), 4);
    idx.insert(key_a.clone(), val(1, b"a")).unwrap();
    idx.insert(key_b.clone(), val(2, b"b")).unwrap();

    let r = idx.insert(key_c.clone(), val(3, b"c"));
    assert_eq!(r.unwrap_err(), IndexError::ProbeExhausted);

    // The failed insert changed nothing.
    assert_eq!(idx.len(), 2);
    assert_eq!(idx.capacity(), 4);
    assert_eq!(idx.get(&key_a).unwrap().flags, 1);
    assert_eq!(idx.get(&key_b).unwrap().flags, 2);
    assert!(idx.get(&key_c).is_none());
}

#[test]
fn empty_keys_and_values_are_entries() {
    let mut idx = Index::with_capacity(4);
    idx.insert(Vec::new(), val(5, b"")).unwrap();
    let got = idx.get(b"").unwrap();
    assert_eq!(got.flags, 5);
    assert!(got.data.is_empty());
    assert_eq!(idx.len(), 1);
}
