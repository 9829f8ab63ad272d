//! Provides the [ZipLoader] type, which loads assets out of a ZIP archive
//! held in memory. The `zip` crate does the entry lookup and the
//! decompression; the archive is read through an in-memory cursor, so entry
//! lookup can seek freely.

use crate::handle::{AssetStore, Handle, SlotView};
use crate::{AssetCreationHandler, AssetLoader};
use std::io::Read;
use vstd::prelude::*;

verus! {

#[verifier::external_type_specification]
#[verifier::external_body]
#[verifier::reject_recursive_types(R)]
pub struct ExZipArchive<R>(zip::read::ZipArchive<R>);

#[verifier::external_type_specification]
#[verifier::external_body]
#[verifier::reject_recursive_types(T)]
pub struct ExCursor<T>(std::io::Cursor<T>);

/// The entries a ZIP archive holds: each entry name maps to the entry's
/// decompressed contents.
pub uninterp spec fn zip_entries(a: zip::read::ZipArchive<std::io::Cursor<Vec<u8>>>) -> Map<
    Seq<char>,
    Seq<u8>,
>;

/// Relies on zip::read::ZipArchive::by_name, which looks the entry with
/// exactly this name up in the archive's central directory, and on reading
/// the found entry's decompressed contents to the end through zip's reader.
/// Looking an entry up moves the underlying cursor but adds and removes no
/// entry.
#[verifier::external_body]
fn entry_bytes(archive: &mut zip::read::ZipArchive<std::io::Cursor<Vec<u8>>>, name: &str) -> (r:
    Option<Vec<u8>>)
    ensures
        zip_entries(*final(archive)) == zip_entries(*old(archive)),
        r matches Some(b) ==> zip_entries(*old(archive)).contains_key(name@) && b@ == zip_entries(
            *old(archive),
        )[name@],
{
    let mut file = match archive.by_name(name) {
        Ok(f) => f,
        Err(_) => {
            return None;
        },
    };
    let mut buf: Vec<u8> = Vec::new();
    match file.read_to_end(&mut buf) {
        Ok(_) => Some(buf),
        Err(_) => None,
    }
}

/// A loader that reads assets out of a ZIP archive held in memory.
pub struct ZipLoader {
    archive: zip::read::ZipArchive<std::io::Cursor<Vec<u8>>>,
}

impl ZipLoader {
    /// The archive's entries, by name.
    pub closed spec fn entries(&self) -> Map<Seq<char>, Seq<u8>> {
        zip_entries(self.archive)
    }

    /// Initialize a new ZipLoader that reads assets as entries of the given
    /// archive.
    pub fn new(archive: zip::read::ZipArchive<std::io::Cursor<Vec<u8>>>) -> (r: Self)
        ensures
            r.entries() == zip_entries(archive),
    {
        ZipLoader { archive }
    }
}

impl AssetLoader for ZipLoader {
    open spec fn loader_inv(&self, store: Seq<SlotView>) -> bool {
        true
    }

    proof fn loader_inv_frame(&self, pre: Seq<SlotView>, post: Seq<SlotView>) {
    }

    /// Look the identifier up as an entry name; if the archive holds such an
    /// entry and the handler accepts its contents, the new asset is wrapped
    /// in a fresh slot and its one claim returned. An asset is only ever
    /// produced from an entry that is present under exactly that name.
    fn load_asset<H: AssetCreationHandler>(
        &mut self,
        store: &mut AssetStore,
        handler: &mut H,
        identifier: &str,
    ) -> (r: Option<Handle>)
        ensures
            final(self).entries() == old(self).entries(),
            r is Some ==> old(self).entries().contains_key(identifier@),
            !old(self).entries().contains_key(identifier@) ==> r is None,
            r matches Some(h) ==> h@ == old(store)@.len() && final(store)@.len() == old(
                store,
            )@.len() + 1 && final(store)@[h@].count == 1,
    {
        let bytes = entry_bytes(&mut self.archive, identifier);
        match bytes {
            None => None,
            Some(b) => {
                match handler.create_asset(store, identifier, &b) {
                    None => None,
                    Some(v) => Some(store.wrap(v)),
                }
            },
        }
    }
}

} // verus!
