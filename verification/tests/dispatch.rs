//! Tests of extension dispatch, directory resolution and the tagged JSON
//! handler.

use mini_asset_loader::asset::TaggedJsonAssetCreationHandler;
use mini_asset_loader::handle::{AssetStore, AssetValue};
use mini_asset_loader::loaders::directory::{DirectoryLoader, FileProvider};
use mini_asset_loader::{
    extension_of_exec, AssetCreationHandler, AssetLoader, ExtensionMappedAssetCreationHandler,
};
use std::cell::Cell;
use std::rc::Rc;

/// A creation handler that accepts everything, stamping a fixed tag and
/// counting its calls.
struct CountingHandler {
    tag: u64,
    calls: Rc<Cell<u32>>,
}

impl AssetCreationHandler for CountingHandler {
    fn create_asset(
        &mut self,
        _store: &AssetStore,
        _identifier: &str,
        bytes: &Vec<u8>,
    ) -> Option<AssetValue> {
        self.calls.set(self.calls.get() + 1);
        Some(AssetValue { type_tag: self.tag, bytes: bytes.clone(), refs: Vec::new() })
    }
}

#[test]
fn extension_extraction_cases() {
    assert_eq!(extension_of_exec("a/b.json").as_deref(), Some("json"));
    assert_eq!(extension_of_exec("x.dae").as_deref(), Some("dae"));
    assert_eq!(extension_of_exec("x.tar.gz").as_deref(), Some("gz"));
    assert_eq!(extension_of_exec("x.").as_deref(), Some(""));
    assert_eq!(extension_of_exec("plain"), None);
    assert_eq!(extension_of_exec(".hidden"), None);
    assert_eq!(extension_of_exec("dir/.hidden"), None);
    assert_eq!(extension_of_exec("a.b/c"), None);
    assert_eq!(extension_of_exec(""), None);
    assert_eq!(extension_of_exec("trailing/"), None);
}

#[test]
fn extension_dispatch_picks_one_handler() {
    let store = AssetStore::new();
    let json_calls = Rc::new(Cell::new(0));
    let dae_calls = Rc::new(Cell::new(0));
    let mut mapped = ExtensionMappedAssetCreationHandler::new()
        .with("json", CountingHandler { tag: 1, calls: json_calls.clone() })
        .with("dae", CountingHandler { tag: 2, calls: dae_calls.clone() });

    let bytes = b"payload".to_vec();
    let v = mapped.create_asset(&store, "x.json", &bytes).expect("json dispatch");
    assert_eq!(v.type_tag, 1);
    assert_eq!((json_calls.get(), dae_calls.get()), (1, 0));

    let v = mapped.create_asset(&store, "x.dae", &bytes).expect("dae dispatch");
    assert_eq!(v.type_tag, 2);
    assert_eq!((json_calls.get(), dae_calls.get()), (1, 1));

    // unknown or missing extensions consult no handler at all
    assert!(mapped.create_asset(&store, "x.unknown", &bytes).is_none());
    assert!(mapped.create_asset(&store, "extensionless", &bytes).is_none());
    assert_eq!((json_calls.get(), dae_calls.get()), (1, 1));
}

#[test]
fn extension_registration_overwrites() {
    let store = AssetStore::new();
    let first = Rc::new(Cell::new(0));
    let second = Rc::new(Cell::new(0));
    let mut mapped = ExtensionMappedAssetCreationHandler::new()
        .with("json", CountingHandler { tag: 1, calls: first.clone() })
        .with("json", CountingHandler { tag: 2, calls: second.clone() });
    let v = mapped.create_asset(&store, "x.json", &b"p".to_vec()).expect("dispatch");
    assert_eq!(v.type_tag, 2);
    assert_eq!((first.get(), second.get()), (0, 1));
}

/// An in-memory stand-in for a filesystem, recording every path asked for.
struct FakeFs {
    files: Vec<(String, Vec<u8>)>,
    asked: Rc<std::cell::RefCell<Vec<String>>>,
}

impl FileProvider for FakeFs {
    fn read_file(&mut self, path: &str) -> Option<Vec<u8>> {
        self.asked.borrow_mut().push(path.to_string());
        self.files.iter().find(|f| f.0 == path).map(|f| f.1.clone())
    }
}

#[test]
fn directory_loader_resolves_relative_paths() {
    let mut store = AssetStore::new();
    let asked = Rc::new(std::cell::RefCell::new(Vec::new()));
    let fs = FakeFs {
        files: vec![("D/sub/file.json".to_string(), b"data".to_vec())],
        asked: asked.clone(),
    };
    let mut loader = DirectoryLoader::new("D", fs);
    assert_eq!(loader.resolve_path("sub/file.json"), "D/sub/file.json");

    let calls = Rc::new(Cell::new(0));
    let mut handler = CountingHandler { tag: 1, calls: calls.clone() };
    let h = loader.load_asset(&mut store, &mut handler, "sub/file.json").expect("load");
    assert_eq!(store.value(&h).bytes, b"data".to_vec());

    // a missing path yields nothing, without consulting the handler
    assert!(loader.load_asset(&mut store, &mut handler, "sub/absent.json").is_none());
    assert_eq!(calls.get(), 1);
    assert_eq!(*asked.borrow(), vec![
        "D/sub/file.json".to_string(),
        "D/sub/absent.json".to_string(),
    ]);
    store.release(h);
}

#[test]
fn tagged_json_handler_builds_assets() {
    let store = AssetStore::new();
    let mut handler = TaggedJsonAssetCreationHandler::new().with_kind("string_asset", 7);

    let doc = br#"{"type": "string_asset", "data": {"value": "hi"}}"#.to_vec();
    let v = handler.create_asset(&store, "s.json", &doc).expect("tagged document");
    assert_eq!(v.type_tag, 7);
    assert!(v.refs.is_empty());
    // the asset's bytes are the payload alone, re-serialized
    let payload: serde_json::Value = serde_json::from_slice(&v.bytes).expect("payload json");
    assert_eq!(payload.get("value").and_then(|x| x.as_str()), Some("hi"));

    // malformed documents, unregistered kinds and missing fields are refused
    assert!(handler.create_asset(&store, "s.json", &b"{oops".to_vec()).is_none());
    assert!(handler
        .create_asset(&store, "s.json", &br#"{"type": "other", "data": 1}"#.to_vec())
        .is_none());
    assert!(handler
        .create_asset(&store, "s.json", &br#"{"type": "string_asset"}"#.to_vec())
        .is_none());
    assert!(handler.create_asset(&store, "s.json", &br#"{"data": 1}"#.to_vec()).is_none());
    assert!(handler.create_asset(&store, "s.json", &br#"[1, 2]"#.to_vec()).is_none());
}

#[test]
fn tagged_json_later_kind_wins() {
    let store = AssetStore::new();
    let mut handler = TaggedJsonAssetCreationHandler::new()
        .with_kind("thing", 1)
        .with_kind("thing", 2);
    let doc = br#"{"type": "thing", "data": 0}"#.to_vec();
    let v = handler.create_asset(&store, "t.json", &doc).expect("document");
    assert_eq!(v.type_tag, 2);
}
