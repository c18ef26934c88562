use fecs::bitset::Bitset;
use fecs::registry::Registry;
use fecs::registry_error::RegistryError;
use fecs::types::build_entity_index;
use fecs::types::get_entity_index;
use fecs::types::get_entity_version;

#[test]
fn query_uses_subset_matching() {
    // Entities with signatures {A}, {A,B}, {B}: query([A]) returns the
    // first two, query([A,B]) only the middle one, query([A,B,C]) none.
    let mut reg: Registry<u32> = Registry::new();
    let a = reg.register().unwrap();
    let b = reg.register().unwrap();
    let c = reg.register().unwrap();

    let e1 = reg.create().unwrap();
    let e2 = reg.create().unwrap();
    let e3 = reg.create().unwrap();

    reg.attach(a, e1, 1).unwrap();
    reg.attach(a, e2, 2).unwrap();
    reg.attach(b, e2, 20).unwrap();
    reg.attach(b, e3, 30).unwrap();

    let just_a = reg.query(&vec![a]).unwrap();
    assert_eq!(just_a.len(), 2);
    assert!(just_a.contains(&e1));
    assert!(just_a.contains(&e2));

    let a_and_b = reg.query(&vec![a, b]).unwrap();
    assert_eq!(a_and_b, vec![e2]);

    let all_three = reg.query(&vec![a, b, c]).unwrap();
    assert!(all_three.is_empty());
}

#[test]
fn end_to_end_scenario() {
    // Create three entities with values 32, 64, 128; query returns all
    // three; destroying the middle one leaves the other two, unchanged.
    let mut reg: Registry<u32> = Registry::new();
    let values = reg.register().unwrap();

    let e0 = reg.create().unwrap();
    let e1 = reg.create().unwrap();
    let e2 = reg.create().unwrap();

    reg.attach(values, e0, 32).unwrap();
    reg.attach(values, e1, 64).unwrap();
    reg.attach(values, e2, 128).unwrap();

    let all = reg.query(&vec![values]).unwrap();
    assert_eq!(all.len(), 3);
    assert!(all.contains(&e0) && all.contains(&e1) && all.contains(&e2));

    reg.destroy(e1).unwrap();

    let remaining = reg.query(&vec![values]).unwrap();
    assert_eq!(remaining.len(), 2);
    assert!(remaining.contains(&e0) && remaining.contains(&e2));
    assert!(!remaining.contains(&e1));
    assert_eq!(reg.get(values, e0), Some(&32));
    assert_eq!(reg.get(values, e2), Some(&128));
    assert_eq!(reg.get(values, e1), None);
}

#[test]
fn stale_handle_never_mutates_live_data() {
    let mut reg: Registry<u32> = Registry::new();
    let values = reg.register().unwrap();

    let e0 = reg.create().unwrap();
    reg.destroy(e0).unwrap();
    // The slot is reused by a new entity.
    let e0b = reg.create().unwrap();
    assert_eq!(get_entity_index(e0b), get_entity_index(e0));
    reg.attach(values, e0b, 7).unwrap();

    // The stale handle cannot touch the new occupant of its slot.
    assert_eq!(reg.attach(values, e0, 99), Err(RegistryError::NoSuchEntity));
    assert_eq!(reg.detach(values, e0), Err(RegistryError::NoSuchEntity));
    assert_eq!(reg.destroy(e0), Err(RegistryError::NoSuchEntity));
    assert_eq!(reg.get(values, e0), None);
    assert!(!reg.has(values, e0));
    assert_eq!(reg.get(values, e0b), Some(&7));
}

#[test]
fn register_past_maximum_is_capacity_exceeded() {
    let mut reg: Registry<u32> = Registry::new();
    let max = reg.max_components();
    for _ in 0..max {
        reg.register().unwrap();
    }
    assert_eq!(reg.register(), Err(RegistryError::CapacityExceeded));
}

#[test]
fn handle_packing_formula() {
    // A handle is (version << 20) | index.
    let e = build_entity_index(5, 3);
    assert_eq!(e, (3 << 20) | 5);
    assert_eq!(get_entity_index(e), 5);
    assert_eq!(get_entity_version(e), 3);
    assert_eq!(get_entity_index(0xFFFF_FFFF), 0xF_FFFF);
    assert_eq!(get_entity_version(0xFFFF_FFFF), 0xFFF);
}

#[test]
fn bitset_renders_highest_bit_first() {
    let mut bs = Bitset::new(4);
    bs.set(0);
    bs.set(2);
    assert_eq!(bs.to_string(), "0101");
}

#[test]
fn signature_defaults_to_empty() {
    let mut reg: Registry<u32> = Registry::new();
    let _values = reg.register().unwrap();
    let e = reg.create().unwrap();
    let sig = reg.signature_of(e);
    for i in 0..sig.len() {
        assert!(!sig.test(i));
    }
}

#[test]
fn sparse_set_stays_gapless_under_churn() {
    // After an arbitrary interleaving of inserts and removes, every
    // present entity reports its last-inserted value and the dense
    // length equals the number of present entities.
    let mut set = fecs::sparse_set::SparseSet::<u32>::new();
    let ids: Vec<u32> = vec![0, 5, 3, 2048, 9, 4100];
    for (i, &id) in ids.iter().enumerate() {
        set.insert(id, i as u32).unwrap();
    }
    set.remove(5).unwrap();
    set.remove(2048).unwrap();
    set.insert(5, 77).unwrap();
    set.insert(9, 99).unwrap();

    let expected: Vec<(u32, u32)> = vec![(0, 0), (3, 2), (9, 99), (4100, 5), (5, 77)];
    assert_eq!(set.len(), expected.len());
    for &(id, v) in &expected {
        assert!(set.has(id));
        assert_eq!(set.get(id), Some(&v));
    }
    assert!(!set.has(2048));
}

#[test]
fn destroyed_entity_stays_dead_through_reuse_cycles() {
    let mut reg: Registry<u32> = Registry::new();
    let first = reg.create().unwrap();
    reg.destroy(first).unwrap();
    for _ in 0..50 {
        let e = reg.create().unwrap();
        assert!(get_entity_version(e) > get_entity_version(first));
        assert!(!reg.is_alive(first));
        reg.destroy(e).unwrap();
        assert!(!reg.is_alive(e));
    }
}

#[test]
fn registry_len_counts_entities_per_kind() {
    let mut reg: Registry<u32> = Registry::new();
    assert_eq!(reg.len(0), Err(RegistryError::NoSuchComponentSet));
    let values = reg.register().unwrap();
    assert_eq!(reg.len(values), Ok(0));
    let e0 = reg.create().unwrap();
    let e1 = reg.create().unwrap();
    reg.attach(values, e0, 1).unwrap();
    reg.attach(values, e1, 2).unwrap();
    assert_eq!(reg.len(values), Ok(2));
    // Overwriting does not add an entry.
    reg.attach(values, e0, 3).unwrap();
    assert_eq!(reg.len(values), Ok(2));
    reg.detach(values, e0).unwrap();
    assert_eq!(reg.len(values), Ok(1));
}
