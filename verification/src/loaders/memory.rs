//! Provides the [MemoryLoader] type, a fixed in-memory table of pre-built
//! assets: "loading" is a lookup and a fresh claim on the stored asset. No
//! creation handler is ever consulted.

use crate::handle::{live, slack, AssetStore, Handle, SlotView};
use crate::loaders::cached::{
    cache_wf, efind, entry_views, lemma_efind_at, lemma_efind_none, lemma_emult_zero,
};
use crate::{AssetCreationHandler, AssetLoader};
use vstd::prelude::*;

verus! {

/// A table of pre-built assets that acts as a loader: each identifier names
/// one asset the table keeps a claim on, and loading hands out another claim
/// on the same asset.
pub struct MemoryLoader {
    assets: Vec<(String, Handle)>,
}

impl MemoryLoader {
    /// The stored identifiers and the slots they name.
    pub closed spec fn entries(&self) -> Seq<(Seq<char>, int)> {
        entry_views(self.assets@)
    }

    /// An empty table.
    pub fn new() -> (r: Self)
        ensures
            r.entries() =~= Seq::<(Seq<char>, int)>::empty(),
    {
        MemoryLoader { assets: Vec::new() }
    }

    /// Store an asset under an identifier not yet present, moving the given
    /// claim into the table.
    pub fn insert(&mut self, identifier: &str, handle: Handle)
        requires
            efind(old(self).entries(), identifier@) is None,
        ensures
            final(self).entries() == old(self).entries().push((identifier@, handle@)),
    {
        self.assets.push((identifier.to_owned(), handle));
        proof {
            assert(self.entries() =~= old(self).entries().push((identifier@, handle@)));
        }
    }
}

impl AssetLoader for MemoryLoader {
    open spec fn loader_inv(&self, store: Seq<SlotView>) -> bool {
        cache_wf(self.entries(), store)
    }

    proof fn loader_inv_frame(&self, pre: Seq<SlotView>, post: Seq<SlotView>) {
        assert forall|j: int| 0 <= j < post.len() implies crate::loaders::cached::emult(
            self.entries(),
            j,
        ) <= slack(post, j) by {
            if j < pre.len() {
                if live(pre, j) {
                } else {
                    assert(pre[j].count == 0);
                    assert(pre[j].count >= crate::handle::inbound(pre, j));
                    assert(!live(post, j));
                    assert(post[j].count == 0);
                    assert(post[j].count >= crate::handle::inbound(post, j));
                }
            } else {
                assert forall|k: int| 0 <= k < self.entries().len() implies (
                #[trigger] self.entries()[k]).1 != j by {
                    assert(live(pre, self.entries()[k].1));
                }
                lemma_emult_zero(self.entries(), j);
            }
        }
    }

    /// Look the identifier up and hand out a fresh claim on the stored
    /// asset; the handler is never consulted.
    #[verifier::loop_isolation(false)]
    fn load_asset<H: AssetCreationHandler>(
        &mut self,
        store: &mut AssetStore,
        handler: &mut H,
        identifier: &str,
    ) -> (r: Option<Handle>)
        ensures
            *final(self) == *old(self),
            *final(handler) == *old(handler),
            match efind(old(self).entries(), identifier@) {
                Some(s) => {
                    &&& (old(store)@[s].count < u64::MAX ==> (r matches Some(h) && h@ == s
                        && final(store)@ == old(store)@.update(
                        s,
                        SlotView {
                            count: (old(store)@[s].count + 1) as nat,
                            value: old(store)@[s].value,
                        },
                    )))
                    &&& (old(store)@[s].count == u64::MAX ==> r is None && final(store)@ == old(
                        store,
                    )@)
                },
                None => r is None && final(store)@ == old(store)@,
            },
    {
        let key: String = identifier.to_owned();
        let n = self.assets.len();
        let mut i: usize = 0;
        while i < n
            invariant
                i <= n,
                n == self.assets@.len(),
                *self == *old(self),
                *handler == *old(handler),
                store@ == old(store)@,
                forall|k: int| 0 <= k < i ==> (#[trigger] self.entries()[k]).0 != identifier@,
            decreases n - i,
        {
            if self.assets[i].0.eq(&key) {
                proof {
                    lemma_efind_at(self.entries(), i as int);
                    assert(live(store@, self.entries()[i as int].1));
                }
                let rc = store.reference_count(&self.assets[i].1);
                if rc == u64::MAX {
                    return None;
                }
                let h = store.clone_handle(&self.assets[i].1);
                proof {
                    let ghost s = self.entries()[i as int].1;
                    assert(final(store)@ =~= old(store)@.update(
                        s,
                        SlotView {
                            count: (old(store)@[s].count + 1) as nat,
                            value: old(store)@[s].value,
                        },
                    ));
                    assert forall|j: int| 0 <= j < store@.len() implies crate::loaders::cached::emult(
                        self.entries(),
                        j,
                    ) <= slack(store@, j) by {}
                }
                return Some(h);
            }
            i = i + 1;
        }
        proof {
            lemma_efind_none(self.entries(), identifier@);
        }
        None
    }
}

} // verus!
