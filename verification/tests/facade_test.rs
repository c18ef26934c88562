use fecs::bitset::Bitset;
use fecs::registry::Registry;
use fecs::types::get_entity_index;
use fecs::types::get_entity_version;

#[test]
fn test_add_entity() {
    let mut fecs: Registry<u32> = Registry::new();
    let e0 = fecs.create().unwrap();
    let e1 = fecs.create().unwrap();

    assert_eq!(e0, 0);
    assert_eq!(e1, 1);
}

#[test]
fn test_remove_entity() {
    let mut fecs: Registry<u32> = Registry::new();
    let mut e0 = fecs.create().unwrap();
    assert_eq!(e0, 0);

    fecs.destroy(e0).unwrap();
    // The slot index is reused, with a bumped version: the old handle
    // stays dead.
    let old0 = e0;
    e0 = fecs.create().unwrap();
    assert_eq!(get_entity_index(e0), 0);
    assert_eq!(get_entity_version(e0), 1);
    assert!(!fecs.is_alive(old0));

    let e1 = fecs.create().unwrap();
    assert_eq!(get_entity_index(e1), 1);

    fecs.destroy(e0).unwrap();
    let e0b = fecs.create().unwrap();
    assert_eq!(get_entity_index(e0b), 0);
    assert_eq!(get_entity_version(e0b), 2);
}

#[test]
fn test_attach() {
    let mut fecs: Registry<u32> = Registry::new();
    let values = fecs.register().unwrap();

    // entity 0
    let e0 = fecs.create().unwrap();
    fecs.attach(values, e0, 42).unwrap();

    assert_eq!(fecs.get(values, e0), Some(42).as_ref());

    // entity 1
    let e1 = fecs.create().unwrap();
    fecs.attach(values, e1, 12).unwrap();

    assert_ne!(fecs.get(values, e1), Some(32).as_ref());
    assert_eq!(fecs.get(values, e1), Some(12).as_ref());
}

#[test]
fn test_get() {
    let mut fecs: Registry<u32> = Registry::new();
    let values = fecs.register().unwrap();

    let e0 = fecs.create().unwrap();
    fecs.attach(values, e0, 534).unwrap();
    assert_eq!(fecs.get(values, e0), Some(534).as_ref());

    *fecs.get_mut(values, e0).unwrap() = 12;
    assert_eq!(fecs.get(values, e0), Some(12).as_ref());
}

#[test]
fn test_detach() {
    // test detaching
    let mut fecs: Registry<u32> = Registry::new();
    let values = fecs.register().unwrap();

    let e0 = fecs.create().unwrap();
    fecs.attach(values, e0, 123).unwrap();
    assert_eq!(fecs.get(values, e0), Some(123).as_ref());

    // remove component, expecting a None
    fecs.detach(values, e0).unwrap();
    assert_ne!(fecs.get(values, e0), Some(123).as_ref());
    assert_eq!(fecs.get(values, e0), None);
}

#[test]
fn test_signature() {
    let mut fecs: Registry<u32> = Registry::new();
    let first = fecs.register().unwrap();
    let second = fecs.register().unwrap();

    let e0 = fecs.create().unwrap();
    fecs.attach(first, e0, 23).unwrap();

    // one bit
    let e0_signature = fecs.signature_of(e0);
    let mut e0_result = Bitset::new(fecs.max_components());
    e0_result.set(first);
    assert_eq!(e0_signature == e0_result, true);

    // multi
    fecs.attach(second, e0, 23).unwrap();
    let e0_signature = fecs.signature_of(e0);
    e0_result.set(second);
    assert_eq!(e0_signature == e0_result, true);

    // remove
    fecs.detach(first, e0).unwrap();
    let e0_signature = fecs.signature_of(e0);
    e0_result.reset(first);
    assert_eq!(e0_signature == e0_result, true);
}

#[test]
fn test_querying() {
    let mut fecs: Registry<u32> = Registry::new();
    let values = fecs.register().unwrap();
    let _other = fecs.register().unwrap();

    let e0 = fecs.create().unwrap();
    let e1 = fecs.create().unwrap();
    let e2 = fecs.create().unwrap();

    fecs.attach(values, e0, 0).unwrap();
    fecs.attach(values, e1, 32).unwrap();
    fecs.attach(values, e2, 64).unwrap();

    let kinds = vec![values];
    for (i, e) in fecs.query(&kinds).unwrap().into_iter().enumerate().rev() {
        let result = fecs.get(values, e).unwrap();
        let expected = i as u32 * 32;
        assert_eq!(*result, expected);
    }
}
