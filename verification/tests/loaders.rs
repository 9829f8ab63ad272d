//! Tests of the loaders: caching, priority order, reclamation, memory table.

use mini_asset_loader::handle::{AssetStore, AssetValue, Handle};
use mini_asset_loader::loaders::cached::{failed_load_leaves_no_entry, loads_share_storage,
    CachedLoader, ToCached};
use mini_asset_loader::loaders::combined::CombinedLoader;
use mini_asset_loader::loaders::memory::MemoryLoader;
use mini_asset_loader::{AssetCreationHandler, AssetLoader, TypedAssetLoader};
use mini_asset_loader::handle::SlotView;
use std::cell::Cell;
use std::rc::Rc;
use vstd::seq::Seq;

/// A creation handler that accepts everything, stamping a fixed tag.
struct StampHandler {
    tag: u64,
}

impl AssetCreationHandler for StampHandler {
    fn create_asset(
        &mut self,
        _store: &AssetStore,
        _identifier: &str,
        bytes: &Vec<u8>,
    ) -> Option<AssetValue> {
        Some(AssetValue { type_tag: self.tag, bytes: bytes.clone(), refs: Vec::new() })
    }
}

/// A loader over a fixed table of byte blobs, counting how often it is asked.
struct TableLoader {
    rows: Vec<(String, Vec<u8>)>,
    calls: Rc<Cell<u32>>,
}

impl TableLoader {
    fn new(rows: Vec<(&str, &[u8])>) -> (Self, Rc<Cell<u32>>) {
        let calls = Rc::new(Cell::new(0));
        let rows = rows.into_iter().map(|(k, v)| (k.to_string(), v.to_vec())).collect();
        (TableLoader { rows, calls: calls.clone() }, calls)
    }
}

impl AssetLoader for TableLoader {
    fn loader_inv(&self, _store: Seq<SlotView>) -> bool {
        true
    }

    fn loader_inv_frame(&self, _pre: Seq<SlotView>, _post: Seq<SlotView>) {}

    fn load_asset<H: AssetCreationHandler>(
        &mut self,
        store: &mut AssetStore,
        handler: &mut H,
        identifier: &str,
    ) -> Option<Handle> {
        self.calls.set(self.calls.get() + 1);
        let bytes = self.rows.iter().find(|r| r.0 == identifier)?.1.clone();
        let value = handler.create_asset(store, identifier, &bytes)?;
        Some(store.wrap(value))
    }
}

#[test]
fn cached_loader_loads_once() {
    let mut store = AssetStore::new();
    let (child, calls) = TableLoader::new(vec![("a.txt", b"alpha")]);
    let mut cache = child.to_cached();
    let mut handler = StampHandler { tag: 1 };

    let h1 = cache.load_asset(&mut store, &mut handler, "a.txt").expect("first load");
    assert_eq!(calls.get(), 1);
    // cache claim plus the returned one
    assert_eq!(store.reference_count(&h1), 2);

    let h2 = cache.load_asset(&mut store, &mut handler, "a.txt").expect("second load");
    // the child was not consulted again and the storage is shared
    assert_eq!(calls.get(), 1);
    assert_eq!(h1.id(), h2.id());
    assert_eq!(store.reference_count(&h1), 3);
}

#[test]
fn cached_loads_share_storage_law_on_values() {
    let mut store = AssetStore::new();
    let (child, _calls) = TableLoader::new(vec![("a.txt", b"alpha")]);
    let mut cache = CachedLoader::new(child);
    let mut handler = StampHandler { tag: 1 };
    let (r1, r2) = loads_share_storage(&mut cache, &mut store, &mut handler, "a.txt");
    let h1 = r1.expect("first load");
    let h2 = r2.expect("second load");
    assert_eq!(h1.id(), h2.id());
}

#[test]
fn cached_miss_is_not_recorded() {
    let mut store = AssetStore::new();
    let (child, calls) = TableLoader::new(vec![]);
    let mut cache = CachedLoader::new(child);
    let mut handler = StampHandler { tag: 1 };

    let miss = failed_load_leaves_no_entry(&mut cache, &mut store, &mut handler, "late.txt");
    assert!(miss.is_none());
    assert_eq!(calls.get(), 1);

    // the same identifier is retried: the child is asked again
    assert!(cache.load_asset(&mut store, &mut handler, "late.txt").is_none());
    assert_eq!(calls.get(), 2);
}

#[test]
fn cached_miss_then_success_works() {
    let mut store = AssetStore::new();
    let calls = Rc::new(Cell::new(0));
    struct FlakyLoader {
        ready: bool,
        calls: Rc<Cell<u32>>,
    }
    impl AssetLoader for FlakyLoader {
        fn loader_inv(&self, _store: Seq<SlotView>) -> bool {
            true
        }

        fn loader_inv_frame(&self, _pre: Seq<SlotView>, _post: Seq<SlotView>) {}

        fn load_asset<H: AssetCreationHandler>(
            &mut self,
            store: &mut AssetStore,
            handler: &mut H,
            identifier: &str,
        ) -> Option<Handle> {
            self.calls.set(self.calls.get() + 1);
            if !self.ready {
                return None;
            }
            let value = handler.create_asset(store, identifier, &b"now".to_vec())?;
            Some(store.wrap(value))
        }
    }
    let mut cache = CachedLoader::new(FlakyLoader { ready: false, calls: calls.clone() });
    let mut handler = StampHandler { tag: 1 };
    assert!(cache.load_asset(&mut store, &mut handler, "x").is_none());
    assert_eq!(calls.get(), 1);
    // once the backing source starts succeeding, the identifier loads
    // (nothing negative was cached)
    // the cache owns the child, so flip readiness through a fresh cache
    let mut cache = CachedLoader::new(FlakyLoader { ready: true, calls: calls.clone() });
    let h = cache.load_asset(&mut store, &mut handler, "x");
    assert!(h.is_some());
    assert_eq!(calls.get(), 2);
}

#[test]
fn combined_loader_prefers_first_child() {
    let mut store = AssetStore::new();
    let (a, a_calls) = TableLoader::new(vec![("i", b"from a")]);
    let (b, b_calls) = TableLoader::new(vec![("i", b"from b")]);
    let mut combined = CombinedLoader::new().with(a).with(b);
    let mut handler = StampHandler { tag: 1 };

    let h = combined.load_asset(&mut store, &mut handler, "i").expect("load");
    assert_eq!(store.value(&h).bytes, b"from a".to_vec());
    assert_eq!(a_calls.get(), 1);
    // the second child is never consulted once the first succeeds
    assert_eq!(b_calls.get(), 0);
}

#[test]
fn combined_loader_falls_through_to_later_children() {
    let mut store = AssetStore::new();
    let (a, a_calls) = TableLoader::new(vec![("only-in-a", b"a")]);
    let (b, b_calls) = TableLoader::new(vec![("i", b"from b")]);
    let mut combined = CombinedLoader::new_with(vec![a, b]);
    let mut handler = StampHandler { tag: 1 };

    let h = combined.load_asset(&mut store, &mut handler, "i").expect("load");
    assert_eq!(store.value(&h).bytes, b"from b".to_vec());
    assert_eq!(a_calls.get(), 1);
    assert_eq!(b_calls.get(), 1);
    assert!(combined.load_asset(&mut store, &mut handler, "nowhere").is_none());
}

#[test]
fn garbage_collect_frees_unreferenced_entries() {
    let mut store = AssetStore::new();
    let (child, calls) = TableLoader::new(vec![("i", b"asset")]);
    let mut cache = CachedLoader::new(child);
    let mut handler = StampHandler { tag: 1 };

    let h = cache.load_asset(&mut store, &mut handler, "i").expect("load");
    let id = h.id();
    store.release(h);
    cache.garbage_collect(&mut store);
    assert!(!store.is_live(id));

    // a later load consults the child afresh
    let h2 = cache.load_asset(&mut store, &mut handler, "i").expect("reload");
    assert_eq!(calls.get(), 2);
    store.release(h2);
}

#[test]
fn garbage_collect_spares_referenced_entries() {
    let mut store = AssetStore::new();
    let (child, calls) = TableLoader::new(vec![("i", b"asset")]);
    let mut cache = CachedLoader::new(child);
    let mut handler = StampHandler { tag: 1 };

    let h = cache.load_asset(&mut store, &mut handler, "i").expect("load");
    let id = h.id();
    // one external clone is retained: the entry must survive
    cache.garbage_collect(&mut store);
    assert!(store.is_live(id));
    let h2 = cache.load_asset(&mut store, &mut handler, "i").expect("still cached");
    assert_eq!(h2.id(), id);
    assert_eq!(calls.get(), 1);
    store.release(h2);
    store.release(h);
}

#[test]
fn garbage_collect_follows_reference_chains() {
    let mut store = AssetStore::new();
    // a loader whose "A" asset holds a handle to its "B" asset
    struct ChainLoader {
        b_id: Rc<Cell<usize>>,
        calls: Rc<Cell<u32>>,
    }
    impl AssetLoader for ChainLoader {
        fn loader_inv(&self, _store: Seq<SlotView>) -> bool {
            true
        }

        fn loader_inv_frame(&self, _pre: Seq<SlotView>, _post: Seq<SlotView>) {}

        fn load_asset<H: AssetCreationHandler>(
            &mut self,
            store: &mut AssetStore,
            _handler: &mut H,
            identifier: &str,
        ) -> Option<Handle> {
            self.calls.set(self.calls.get() + 1);
            if identifier == "B" {
                let h = store.wrap(AssetValue {
                    type_tag: 2,
                    bytes: b"b".to_vec(),
                    refs: Vec::new(),
                });
                self.b_id.set(h.id());
                Some(h)
            } else if identifier == "A" {
                Some(store.wrap(AssetValue {
                    type_tag: 1,
                    bytes: b"a".to_vec(),
                    refs: vec![self.b_id.get()],
                }))
            } else {
                None
            }
        }
    }
    let b_id = Rc::new(Cell::new(0));
    let calls = Rc::new(Cell::new(0));
    let mut cache = CachedLoader::new(ChainLoader { b_id: b_id.clone(), calls: calls.clone() });
    let mut handler = StampHandler { tag: 0 };

    let hb = cache.load_asset(&mut store, &mut handler, "B").expect("load B");
    let hb_id = hb.id();
    store.release(hb);
    let ha = cache.load_asset(&mut store, &mut handler, "A").expect("load A");
    let ha_id = ha.id();
    store.release(ha);

    // B is still pinned by A's value, A only by the cache: one collection
    // removes first A, then (in its repeated sweep) B as well
    assert!(store.is_live(ha_id));
    assert!(store.is_live(hb_id));
    cache.garbage_collect(&mut store);
    assert!(!store.is_live(ha_id));
    assert!(!store.is_live(hb_id));
    assert_eq!(calls.get(), 2);
}

#[test]
fn loaders_compose_with_caching_inside() {
    let mut store = AssetStore::new();
    let (a, a_calls) = TableLoader::new(vec![("i", b"cached side")]);
    let (b, b_calls) = TableLoader::new(vec![("j", b"plain side")]);
    let mut combined = CombinedLoader::new().with(a.to_cached()).with(b.to_cached());
    let mut handler = StampHandler { tag: 1 };
    let h1 = combined.load_asset(&mut store, &mut handler, "i").expect("first");
    let h2 = combined.load_asset(&mut store, &mut handler, "i").expect("second");
    assert_eq!(h1.id(), h2.id());
    // the first child resolved both loads (once from its backing table, once
    // from its cache); the second child was never reached
    assert_eq!(a_calls.get(), 1);
    assert_eq!(b_calls.get(), 0);
    store.release(h1);
    store.release(h2);
}

#[test]
fn memory_loader_serves_clones_without_handler() {
    let mut store = AssetStore::new();
    let pre = store.wrap(AssetValue { type_tag: 9, bytes: b"fixed".to_vec(), refs: Vec::new() });
    let pre_id = pre.id();
    let mut table = MemoryLoader::new();
    table.insert("thing", pre);

    let mut handler = StampHandler { tag: 1 };
    let h = table.load_asset(&mut store, &mut handler, "thing").expect("lookup");
    assert_eq!(h.id(), pre_id);
    // table claim plus the returned clone
    assert_eq!(store.reference_count(&h), 2);
    assert!(table.load_asset(&mut store, &mut handler, "missing").is_none());
    store.release(h);
}

#[test]
fn typed_load_checks_the_tag() {
    let mut store = AssetStore::new();
    let pre = store.wrap(AssetValue { type_tag: 5, bytes: b"v".to_vec(), refs: Vec::new() });
    let pre_id = pre.id();
    let mut table = MemoryLoader::new();
    table.insert("v", pre);
    let mut handler = StampHandler { tag: 5 };

    // a mismatched tag yields nothing and gives the fresh claim back up
    assert!(table.load_typed_asset(&mut store, &mut handler, "v", 6).is_none());
    assert!(store.is_live(pre_id));
    let count_now = {
        let h = table.load_typed_asset(&mut store, &mut handler, "v", 5).expect("typed");
        assert_eq!(h.id(), pre_id);
        let c = store.reference_count(&h);
        store.release(h);
        c
    };
    // the failed attempt left no extra claim behind
    assert_eq!(count_now, 2);
}
