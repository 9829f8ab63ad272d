//! Tests of the shared-handle store: counting, downcasting, reclamation.

use mini_asset_loader::handle::{downcast_round_trip, AssetStore, AssetValue};

fn text_value(tag: u64, text: &str) -> AssetValue {
    AssetValue { type_tag: tag, bytes: text.as_bytes().to_vec(), refs: Vec::new() }
}

#[test]
fn wrap_starts_at_one_reference() {
    let mut store = AssetStore::new();
    let h = store.wrap(text_value(1, "hello"));
    assert_eq!(store.reference_count(&h), 1);
    assert!(store.is_live(h.id()));
    assert_eq!(store.value(&h).bytes, b"hello".to_vec());
    assert_eq!(store.type_tag(&h), 1);
}

#[test]
fn clone_increments_and_shares_storage() {
    let mut store = AssetStore::new();
    let h = store.wrap(text_value(1, "shared"));
    let h2 = store.clone_handle(&h);
    assert_eq!(h.id(), h2.id());
    assert_eq!(store.reference_count(&h), 2);
    store.release(h2);
    assert_eq!(store.reference_count(&h), 1);
    store.release(h);
}

#[test]
fn downcast_wrong_type_refuses_and_preserves() {
    let mut store = AssetStore::new();
    let h = store.wrap(text_value(7, "typed"));
    let id = h.id();
    // wrong tag: refused, handle unharmed
    let h = match store.downcast(h, 8) {
        Ok(_) => panic!("downcast to a different tag must refuse"),
        Err(original) => original,
    };
    assert_eq!(h.id(), id);
    assert_eq!(store.reference_count(&h), 1);
    assert_eq!(store.value(&h).bytes, b"typed".to_vec());
    // right tag: accepted, same storage
    let typed = match store.downcast(h, 7) {
        Ok(t) => t,
        Err(_) => panic!("downcast to the stored tag must succeed"),
    };
    assert_eq!(typed.id(), id);
    assert_eq!(store.reference_count(&typed), 1);
}

#[test]
fn downcast_round_trip_law_on_values() {
    let mut store = AssetStore::new();
    let h = downcast_round_trip(&mut store, text_value(3, "abc"), 4);
    assert_eq!(store.reference_count(&h), 1);
    assert_eq!(store.type_tag(&h), 3);
}

#[test]
fn release_last_claim_frees_slot() {
    let mut store = AssetStore::new();
    let h = store.wrap(text_value(1, "gone soon"));
    let id = h.id();
    store.release(h);
    assert!(!store.is_live(id));
}

#[test]
fn wrap_charges_referenced_assets() {
    let mut store = AssetStore::new();
    let inner = store.wrap(text_value(1, "inner"));
    assert_eq!(store.reference_count(&inner), 1);
    let outer = store.wrap(AssetValue {
        type_tag: 2,
        bytes: Vec::new(),
        refs: vec![inner.id()],
    });
    assert_eq!(store.reference_count(&inner), 2);
    assert_eq!(store.reference_count(&outer), 1);
    // releasing the outer asset cascades to the inner one
    store.release(outer);
    assert_eq!(store.reference_count(&inner), 1);
    let inner_id = inner.id();
    store.release(inner);
    assert!(!store.is_live(inner_id));
}

#[test]
fn release_cascades_through_chains() {
    let mut store = AssetStore::new();
    let c = store.wrap(text_value(1, "c"));
    let c_id = c.id();
    let b = store.wrap(AssetValue { type_tag: 1, bytes: b"b".to_vec(), refs: vec![c_id] });
    let b_id = b.id();
    let a = store.wrap(AssetValue { type_tag: 1, bytes: b"a".to_vec(), refs: vec![b_id] });
    let a_id = a.id();
    // the chain is held alive by a alone
    store.release(c);
    store.release(b);
    assert!(store.is_live(c_id));
    assert!(store.is_live(b_id));
    // dropping the head frees the whole chain
    store.release(a);
    assert!(!store.is_live(a_id));
    assert!(!store.is_live(b_id));
    assert!(!store.is_live(c_id));
}

#[test]
fn shared_references_counted_per_occurrence() {
    let mut store = AssetStore::new();
    let x = store.wrap(text_value(1, "x"));
    let x_id = x.id();
    let y = store.wrap(AssetValue { type_tag: 1, bytes: b"y".to_vec(), refs: vec![x_id] });
    let y_id = y.id();
    // x is held both directly and through y
    let holder = store.wrap(AssetValue {
        type_tag: 1,
        bytes: Vec::new(),
        refs: vec![x_id, y_id],
    });
    store.release(x);
    store.release(y);
    assert!(store.is_live(x_id));
    assert!(store.is_live(y_id));
    store.release(holder);
    assert!(!store.is_live(x_id));
    assert!(!store.is_live(y_id));
}
