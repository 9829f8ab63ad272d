//! Tests of the ZIP-backed loader, against archives built with the real zip
//! crate.

use mini_asset_loader::handle::{AssetStore, AssetValue};
use mini_asset_loader::loaders::zip::ZipLoader;
use mini_asset_loader::{AssetCreationHandler, AssetLoader};
use std::io::Write;

/// A creation handler that accepts everything, stamping a fixed tag.
struct StampHandler {
    tag: u64,
}

impl AssetCreationHandler for StampHandler {
    fn create_asset(
        &mut self,
        _store: &AssetStore,
        _identifier: &str,
        bytes: &Vec<u8>,
    ) -> Option<AssetValue> {
        Some(AssetValue { type_tag: self.tag, bytes: bytes.clone(), refs: Vec::new() })
    }
}

fn build_archive(entries: &[(&str, &[u8])]) -> zip::read::ZipArchive<std::io::Cursor<Vec<u8>>> {
    let mut writer = zip::write::ZipWriter::new(std::io::Cursor::new(Vec::new()));
    let options = zip::write::SimpleFileOptions::default();
    for (name, data) in entries {
        writer.start_file(*name, options).expect("start entry");
        writer.write_all(data).expect("write entry");
    }
    let cursor = writer.finish().expect("finish archive");
    zip::read::ZipArchive::new(cursor).expect("reopen archive")
}

#[test]
fn zip_loader_reads_entries_by_exact_name() {
    let mut store = AssetStore::new();
    let archive = build_archive(&[("a.json", b"alpha"), ("dir/b.bin", b"beta")]);
    let mut loader = ZipLoader::new(archive);
    let mut handler = StampHandler { tag: 3 };

    let h = loader.load_asset(&mut store, &mut handler, "a.json").expect("entry a");
    assert_eq!(store.value(&h).bytes, b"alpha".to_vec());
    assert_eq!(store.type_tag(&h), 3);

    let h2 = loader.load_asset(&mut store, &mut handler, "dir/b.bin").expect("entry b");
    assert_eq!(store.value(&h2).bytes, b"beta".to_vec());

    // only exact names resolve
    assert!(loader.load_asset(&mut store, &mut handler, "b.bin").is_none());
    assert!(loader.load_asset(&mut store, &mut handler, "missing").is_none());
    store.release(h);
    store.release(h2);
}

#[test]
fn zip_loader_propagates_handler_rejection() {
    struct RejectingHandler {}
    impl AssetCreationHandler for RejectingHandler {
        fn create_asset(
            &mut self,
            _store: &AssetStore,
            _identifier: &str,
            _bytes: &Vec<u8>,
        ) -> Option<AssetValue> {
            None
        }
    }
    let mut store = AssetStore::new();
    let archive = build_archive(&[("a.json", b"alpha")]);
    let mut loader = ZipLoader::new(archive);
    let mut handler = RejectingHandler {};
    assert!(loader.load_asset(&mut store, &mut handler, "a.json").is_none());
    assert_eq!(store.len(), 0);
}
