//! Provides the [DirectoryLoader] type, which loads assets from files under a
//! base directory, through a pluggable [`FileProvider`] that does the actual
//! reading.

use crate::handle::{AssetStore, Handle, SlotView};
use crate::{AssetCreationHandler, AssetLoader};
use vstd::prelude::*;

verus! {

/// What a directory loader asks of a filesystem: the full contents of the
/// regular file at `path`, or nothing when there is no such file or it
/// cannot be read.
pub trait FileProvider {
    /// Read the regular file at `path` whole, if there is one.
    fn read_file(&mut self, path: &str) -> (r: Option<Vec<u8>>);
}

/// A loader that resolves identifiers as file paths relative to a fixed base
/// directory: the asset named `sub/file.json` under base `dir` is the file
/// `dir/sub/file.json`, read through the loader's [`FileProvider`].
pub struct DirectoryLoader<F> {
    directory: String,
    provider: F,
}

impl<F: FileProvider> DirectoryLoader<F> {
    /// The base directory paths are resolved against.
    pub closed spec fn base(&self) -> Seq<char> {
        self.directory@
    }

    /// Create a new DirectoryLoader that loads from the given directory,
    /// reading files through `provider`.
    pub fn new(dir: &str, provider: F) -> (r: Self)
        ensures
            r.base() == dir@,
    {
        DirectoryLoader { directory: dir.to_owned(), provider }
    }

    /// The exact path the backing filesystem is asked for when this loader
    /// resolves `identifier`: the identifier appended to the base directory
    /// as a relative path.
    pub fn resolve_path(&self, identifier: &str) -> (r: String)
        ensures
            r@ == self.base() + seq!['/'] + identifier@,
    {
        let mut path: String = self.directory.clone();
        path.append("/");
        path.append(identifier);
        proof {
            reveal_strlit("/");
            assert(path@ =~= self.base() + seq!['/'] + identifier@);
        }
        path
    }
}

impl<F: FileProvider> AssetLoader for DirectoryLoader<F> {
    open spec fn loader_inv(&self, store: Seq<SlotView>) -> bool {
        true
    }

    proof fn loader_inv_frame(&self, pre: Seq<SlotView>, post: Seq<SlotView>) {
    }

    /// Resolve the identifier under the base directory; if the provider
    /// finds the file and the handler accepts its bytes, the new asset is
    /// wrapped in a fresh slot and its one claim returned.
    fn load_asset<H: AssetCreationHandler>(
        &mut self,
        store: &mut AssetStore,
        handler: &mut H,
        identifier: &str,
    ) -> (r: Option<Handle>)
        ensures
            r matches Some(h) ==> h@ == old(store)@.len() && final(store)@.len() == old(
                store,
            )@.len() + 1 && final(store)@[h@].count == 1,
    {
        let path = self.resolve_path(identifier);
        let bytes = self.provider.read_file(path.as_str());
        match bytes {
            None => None,
            Some(b) => {
                match handler.create_asset(store, identifier, &b) {
                    None => None,
                    Some(v) => Some(store.wrap(v)),
                }
            },
        }
    }
}

} // verus!
