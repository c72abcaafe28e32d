use ghostframe_transport::scheduler::slab::Slab;

#[test]
fn insert_then_get_returns_the_value() {
    let mut slab: Slab<u32> = Slab::new();
    let h = slab.insert(42);
    assert_eq!(slab.get(h), Some(&42));
}

#[test]
fn remove_frees_the_entry() {
    let mut slab: Slab<u32> = Slab::new();
    let h = slab.insert(42);
    assert_eq!(slab.remove(h), Some(42));
    assert_eq!(slab.get(h), None, "a removed handle must not resolve");
    assert_eq!(slab.remove(h), None, "double remove must be a no-op");
}

#[test]
fn a_stale_handle_never_resolves_to_the_slots_new_occupant() {
    let mut slab: Slab<u32> = Slab::new();
    let old = slab.insert(1);
    slab.remove(old);
    let new = slab.insert(2);
    assert_eq!(
        new.index, old.index,
        "test is vacuous unless the slot is reused"
    );
    assert_ne!(new.version, old.version, "reuse must bump the version");
    assert_eq!(
        slab.get(old),
        None,
        "stale handle resolved to the new occupant"
    );
    assert_eq!(slab.get(new), Some(&2));
    assert_eq!((old.index, old.version), (0, 1));
    assert_eq!((new.index, new.version), (0, 3));
}

#[test]
fn len_counts_live_entries_only() {
    let mut slab: Slab<u32> = Slab::new();
    assert_eq!(slab.len(), 0);
    let a = slab.insert(1);
    let _b = slab.insert(2);
    assert_eq!(slab.len(), 2);
    slab.remove(a);
    assert_eq!(slab.len(), 1);
}

#[test]
fn clear_drops_everything_and_invalidates_handles() {
    let mut slab: Slab<u32> = Slab::new();
    let h = slab.insert(7);
    slab.clear();
    assert_eq!(slab.len(), 0);
    assert_eq!(slab.get(h), None);
    let next = slab.insert(8);
    assert_eq!((next.index, next.version), (0, 3));
    assert_eq!(slab.get(h), None);
}
