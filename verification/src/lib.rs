//! A small asset-loading library.
//!
//! Assets are located by string identifier in pluggable backing sources
//! (a directory, an archive, an in-memory table), turned into values by a
//! pluggable [`AssetCreationHandler`], and shared through reference-counted
//! handles living in one [`handle::AssetStore`]. The
//! [`loaders::cached::CachedLoader`] memoizes loads per identifier and offers
//! a reclamation pass that frees every asset held by nothing but the cache,
//! following chains of assets that only kept each other alive.

pub mod asset;
pub mod handle;
pub mod loaders;

use crate::handle::{
    grants_handle, live, loader_frame, slack, store_wf, wrap_ready, AssetStore, AssetValue, Handle,
};
use vstd::prelude::*;

verus! {

/// An AssetCreationHandler is the delegate that turns an identifier and raw
/// bytes into an asset value, ready to be wrapped in the store. Returning
/// `None` means the content was unusable; no finer failure is reported.
pub trait AssetCreationHandler {
    /// Build an asset value from the bytes that a loader resolved for
    /// `identifier`. A produced value only references live assets, with room
    /// in their counts for the claims the new value will hold.
    fn create_asset(&mut self, store: &AssetStore, identifier: &str, bytes: &Vec<u8>) -> (r:
        Option<AssetValue>)
        ensures
            r matches Some(v) ==> wrap_ready(store@, v@),
    ;
}

/// An AssetLoader resolves an identifier to a shared handle, with help from
/// an [`AssetCreationHandler`]. `None` means the identifier could not be
/// resolved or its content was rejected; no finer failure is reported.
pub trait AssetLoader {
    /// What this loader relies on of the store, beyond well-formedness:
    /// typically that the slots it keeps claims on are live and that their
    /// slack covers those claims. A plain source relies on nothing.
    spec fn loader_inv(&self, store: Seq<crate::handle::SlotView>) -> bool;

    /// A loader's reliance survives any other load: loads never remove slots
    /// and never spend freestanding claims.
    proof fn loader_inv_frame(&self, pre: Seq<crate::handle::SlotView>, post: Seq<
        crate::handle::SlotView,
    >)
        requires
            self.loader_inv(pre),
            store_wf(pre),
            store_wf(post),
            loader_frame(pre, post),
        ensures
            self.loader_inv(post),
    ;

    /// Load an asset with the given identifier. Whatever the source does,
    /// every asset that was already in the store stays there untouched, and a
    /// returned handle is a fresh freestanding claim on its slot.
    fn load_asset<H: AssetCreationHandler>(
        &mut self,
        store: &mut AssetStore,
        handler: &mut H,
        identifier: &str,
    ) -> (r: Option<Handle>)
        requires
            store_wf(old(store)@),
            old(self).loader_inv(old(store)@),
        ensures
            store_wf(final(store)@),
            loader_frame(old(store)@, final(store)@),
            final(self).loader_inv(final(store)@),
            r matches Some(h) ==> grants_handle(old(store)@, final(store)@, h@),
    ;
}

/// Every asset whose holders kept a freestanding claim survives, keeping its
/// value and at least its claims. Weaker than [`loader_frame`]: an operation
/// that gives a claim up may reclaim assets that nothing else supported.
pub open spec fn holder_frame(
    pre: Seq<crate::handle::SlotView>,
    post: Seq<crate::handle::SlotView>,
) -> bool {
    &&& post.len() >= pre.len()
    &&& forall|j: int|
        live(pre, j) && slack(pre, j) >= 1 ==> live(post, j) && (#[trigger] post[j]).value
            == pre[j].value && slack(post, j) >= slack(pre, j)
}

/// A TypedAssetLoader is a helper over any [`AssetLoader`] that checks the
/// loaded asset's runtime type tag, giving the claim back up on mismatch.
///
/// On a mismatch the freshly granted claim is spent again; every asset whose
/// holders kept claims of their own is untouched, but the loader's own
/// reliance on the store is not re-stated afterwards.
pub trait TypedAssetLoader {
    /// Load an asset by its identifier and keep it only if its runtime type
    /// tag is `type_tag`.
    fn load_typed_asset<H: AssetCreationHandler>(
        &mut self,
        store: &mut AssetStore,
        handler: &mut H,
        identifier: &str,
        type_tag: u64,
    ) -> (r: Option<Handle>)
        requires
            store_wf(old(store)@),
            old(self).loader_inv_of(old(store)@),
        ensures
            store_wf(final(store)@),
            holder_frame(old(store)@, final(store)@),
            r matches Some(h) ==> grants_handle(old(store)@, final(store)@, h@)
                && final(store)@[h@].value.type_tag == type_tag,
    ;

    /// The reliance of the underlying loader, restated so the typed helper
    /// can demand it.
    spec fn loader_inv_of(&self, store: Seq<crate::handle::SlotView>) -> bool;
}

/// Catch-all TypedAssetLoader implementation for any AssetLoader.
impl<T: AssetLoader> TypedAssetLoader for T {
    open spec fn loader_inv_of(&self, store: Seq<crate::handle::SlotView>) -> bool {
        self.loader_inv(store)
    }

    fn load_typed_asset<H: AssetCreationHandler>(
        &mut self,
        store: &mut AssetStore,
        handler: &mut H,
        identifier: &str,
        type_tag: u64,
    ) -> (r: Option<Handle>) {
        let ghost pre = store@;
        let loaded = self.load_asset(store, handler, identifier);
        match loaded {
            None => None,
            Some(h) => match store.downcast(h, type_tag) {
                Ok(typed) => Some(typed),
                Err(other) => {
                    let ghost mid = store@;
                    store.release(other);
                    proof {
                        assert forall|j: int| live(pre, j) && slack(pre, j) >= 1 implies live(
                            final(store)@,
                            j,
                        ) && (#[trigger] final(store)@[j]).value == pre[j].value && slack(
                            final(store)@,
                            j,
                        ) >= slack(pre, j) by {
                            assert(live(mid, j));
                            if j == h@ {
                                assert(slack(mid, j) >= slack(pre, j) + 1);
                            } else {
                                assert(slack(mid, j) >= slack(pre, j));
                            }
                        }
                    }
                    None
                },
            },
        }
    }
}

/// The file extension of an identifier: the text after the last dot of its
/// final path segment, provided that segment has a dot that is not its first
/// character. Mirrors how a path's extension is usually read: `a/b.json` has
/// extension `json`, while `archive.zip/entry`, `.hidden` and `plain` have
/// none.
pub open spec fn extension_of(id: Seq<char>) -> Option<Seq<char>>
    decreases id.len(),
{
    if id.len() == 0 {
        None
    } else if id.last() == '.' {
        if id.len() >= 2 && id[id.len() - 2] != '/' {
            Some(Seq::empty())
        } else {
            None
        }
    } else if id.last() == '/' {
        None
    } else {
        match extension_of(id.drop_last()) {
            Some(e) => Some(e.push(id.last())),
            None => None,
        }
    }
}

proof fn lemma_extension_of_scan(id: Seq<char>, i: int)
    requires
        0 <= i <= id.len(),
        forall|k: int| i <= k < id.len() ==> id[k] != '.' && id[k] != '/',
    ensures
        extension_of(id) == match extension_of(id.take(i)) {
            Some(e) => Some(e + id.skip(i)),
            None => None::<Seq<char>>,
        },
    decreases id.len() - i,
{
    if i == id.len() {
        assert(id.take(i) =~= id);
        match extension_of(id) {
            Some(e) => {
                assert(e + id.skip(i) =~= e);
            },
            None => {},
        }
    } else {
        lemma_extension_of_scan(id, i + 1);
        let p = id.take(i + 1);
        assert(p.drop_last() =~= id.take(i));
        assert(p.last() == id[i]);
        match extension_of(id.take(i)) {
            Some(e) => {
                assert(extension_of(p) == Some(e.push(id[i])));
                assert(e.push(id[i]) + id.skip(i + 1) =~= e + id.skip(i));
            },
            None => {
                assert(extension_of(p) is None);
            },
        }
    }
}

/// Extract the identifier's extension, as [`extension_of`] defines it.
#[verifier::loop_isolation(false)]
pub fn extension_of_exec(identifier: &str) -> (r: Option<String>)
    ensures
        match r {
            Some(s) => extension_of(identifier@) == Some(s@),
            None => extension_of(identifier@) is None,
        },
{
    let n = identifier.unicode_len();
    let mut i: usize = n;
    loop
        invariant
            0 <= i <= n,
            forall|k: int| i <= k < n ==> identifier@[k] != '.' && identifier@[k] != '/',
        decreases i,
    {
        if i == 0 {
            proof {
                lemma_extension_of_scan(identifier@, 0);
                assert(identifier@.take(0) =~= Seq::<char>::empty());
            }
            return None;
        }
        let c = identifier.get_char(i - 1);
        if c == '.' {
            let valid = i >= 2 && identifier.get_char(i - 2) != '/';
            proof {
                lemma_extension_of_scan(identifier@, i as int);
                let p = identifier@.take(i as int);
                assert(p.last() == identifier@[i - 1]);
                if valid {
                    assert(p[p.len() - 2] == identifier@[i - 2]);
                    assert(extension_of(p) == Some(Seq::<char>::empty()));
                    assert(Seq::<char>::empty() + identifier@.skip(i as int) =~= identifier@.skip(
                        i as int,
                    ));
                } else {
                    if i >= 2 {
                        assert(p[p.len() - 2] == identifier@[i - 2]);
                    }
                    assert(extension_of(p) is None);
                }
            }
            if valid {
                let ext = identifier.substring_char(i, n);
                let r: String = ext.to_owned();
                proof {
                    assert(r@ =~= identifier@.skip(i as int));
                }
                return Some(r);
            } else {
                return None;
            }
        }
        if c == '/' {
            proof {
                lemma_extension_of_scan(identifier@, i as int);
                let p = identifier@.take(i as int);
                assert(p.last() == identifier@[i - 1]);
                assert(extension_of(p) is None);
            }
            return None;
        }
        i = i - 1;
    }
}

/// Maps to one of several child [`AssetCreationHandler`]s based on the file
/// extension of the asset's identifier. Exactly one child is consulted per
/// call; a later registration for the same extension replaces the earlier
/// one.
pub struct ExtensionMappedAssetCreationHandler<H> {
    handlers: Vec<(String, H)>,
}

impl<H: AssetCreationHandler> ExtensionMappedAssetCreationHandler<H> {
    /// The registered extensions, in registration order.
    pub closed spec fn keys(&self) -> Seq<Seq<char>> {
        self.handlers@.map_values(|e: (String, H)| e.0@)
    }

    /// Whether a handler is registered for extension `e`.
    pub open spec fn has_key(&self, e: Seq<char>) -> bool {
        exists|k: int| 0 <= k < self.keys().len() && self.keys()[k] == e
    }

    /// Creates an ExtensionMappedAssetCreationHandler with no children.
    /// Use [`Self::with`] to add handlers per extension.
    pub fn new() -> (r: Self)
        ensures
            r.keys() =~= Seq::<Seq<char>>::empty(),
    {
        ExtensionMappedAssetCreationHandler { handlers: Vec::new() }
    }

    /// Returns a version of this handler with an additional child handler for
    /// the extension `key`, replacing any child registered for it before.
    #[verifier::loop_isolation(false)]
    pub fn with(self, key: &str, handler: H) -> (r: Self)
        ensures
            r.has_key(key@),
            forall|e: Seq<char>| #[trigger] r.has_key(e) <==> (self.has_key(e) || e == key@),
    {
        let ghost okeys = self.keys();
        let mut me = self;
        let owned: String = key.to_owned();
        let n = me.handlers.len();
        // scan for an existing registration of this extension
        let mut found: Option<usize> = None;
        let mut j: usize = 0;
        while j < n
            invariant
                n == me.handlers@.len(),
                j <= n,
                me.keys() == okeys,
                match found {
                    Some(f) => f < n && okeys[f as int] == key@,
                    None => true,
                },
            decreases n - j,
        {
            if found.is_none() && me.handlers[j].0.eq(&owned) {
                found = Some(j);
            }
            j = j + 1;
        }
        match found {
            Some(f) => {
                me.handlers[f] = (owned, handler);
                proof {
                    assert(me.keys() =~= okeys);
                    assert(me.has_key(key@)) by {
                        assert(me.keys()[f as int] == key@);
                    }
                    assert forall|e: Seq<char>| #[trigger] me.has_key(e) <==> (self.has_key(e) || e
                        == key@) by {
                        if e == key@ {
                            assert(me.keys()[f as int] == e);
                        }
                    }
                }
                me
            },
            None => {
                me.handlers.push((owned, handler));
                proof {
                    assert(me.keys() =~= okeys.push(key@));
                    let ghost last = okeys.len() as int;
                    assert(me.has_key(key@)) by {
                        assert(me.keys()[last] == key@);
                    }
                    assert forall|e: Seq<char>| #[trigger] me.has_key(e) implies (self.has_key(e)
                        || e == key@) by {
                        let k = choose|k: int| 0 <= k < me.keys().len() && me.keys()[k] == e;
                        if k < last {
                            assert(okeys[k] == e);
                        }
                    }
                    assert forall|e: Seq<char>| (self.has_key(e) || e == key@) implies (
                    #[trigger] me.has_key(e)) by {
                        if self.has_key(e) {
                            let k = choose|k: int| 0 <= k < okeys.len() && okeys[k] == e;
                            assert(me.keys()[k] == e);
                        } else {
                            assert(me.keys()[last] == e);
                        }
                    }
                }
                me
            },
        }
    }
}

impl<H: AssetCreationHandler> AssetCreationHandler for ExtensionMappedAssetCreationHandler<H> {
    /// Handles extension-mapped asset creation: the identifier's extension
    /// picks the one child handler that is consulted; with no extension, or
    /// none registered, nothing is created.
    #[verifier::loop_isolation(false)]
    fn create_asset(&mut self, store: &AssetStore, identifier: &str, bytes: &Vec<u8>) -> (r:
        Option<AssetValue>)
        ensures
            extension_of(identifier@) is None ==> r is None,
            (extension_of(identifier@) matches Some(e) && !old(self).has_key(e)) ==> r is None,
            r matches Some(v) ==> (extension_of(identifier@) matches Some(e) && old(
                self,
            ).has_key(e)),
    {
        let ext = extension_of_exec(identifier);
        match ext {
            None => None,
            Some(e) => {
                let n = self.handlers.len();
                let mut i: usize = 0;
                while i < n
                    invariant
                        i <= n,
                        n == self.handlers@.len(),
                        self.handlers@ == old(self).handlers@,
                        forall|k: int| 0 <= k < i ==> (#[trigger] old(self).keys()[k]) != e@,
                    decreases n - i,
                {
                    if self.handlers[i].0.eq(&e) {
                        proof {
                            assert(old(self).has_key(e@)) by {
                                assert(old(self).keys()[i as int] == e@);
                            }
                        }
                        let mut entry = self.handlers.swap_remove(i);
                        let r = entry.1.create_asset(store, identifier, bytes);
                        self.handlers.push(entry);
                        return r;
                    }
                    i = i + 1;
                }
                proof {
                    assert(!old(self).has_key(e@));
                }
                None
            },
        }
    }
}

} // verus!
