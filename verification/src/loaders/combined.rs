//! Provides the [CombinedLoader] type, which searches multiple child loaders
//! for an asset.

use crate::handle::{grants_handle, live, loader_frame, slack, store_wf, AssetStore, Handle,
    SlotView};
use crate::{AssetCreationHandler, AssetLoader};
use vstd::prelude::*;

verus! {

/// A loader that queries several child loaders for an asset.
///
/// When asked to load an asset, each child loader is queried in order for the
/// same identifier until one provides a result: earlier children shadow
/// later ones, and once a child succeeds the ones after it are not consulted.
pub struct CombinedLoader<L> {
    loaders: Vec<L>,
}

impl<L> CombinedLoader<L> {
    /// The child loaders, in priority order.
    pub closed spec fn children(&self) -> Seq<L> {
        self.loaders@
    }

    /// Creates a new CombinedLoader with no child loaders.
    ///
    /// [`Self::with`] can be used to add child loaders.
    pub fn new() -> (r: Self)
        ensures
            r.children() =~= Seq::<L>::empty(),
    {
        CombinedLoader { loaders: Vec::new() }
    }

    /// Creates a new CombinedLoader with the given child loaders.
    pub fn new_with(loaders: Vec<L>) -> (r: Self)
        ensures
            r.children() == loaders@,
    {
        CombinedLoader { loaders }
    }

    /// Returns a version of this loader with an additional child loader,
    /// appended after the existing ones.
    pub fn with(self, loader: L) -> (r: Self)
        ensures
            r.children() == self.children().push(loader),
    {
        let mut me = self;
        me.loaders.push(loader);
        me
    }
}

impl<L: AssetLoader> AssetLoader for CombinedLoader<L> {
    open spec fn loader_inv(&self, store: Seq<SlotView>) -> bool {
        forall|k: int|
            0 <= k < self.children().len() ==> (#[trigger] self.children()[k]).loader_inv(store)
    }

    proof fn loader_inv_frame(&self, pre: Seq<SlotView>, post: Seq<SlotView>) {
        assert forall|k: int| 0 <= k < self.children().len() implies (
        #[trigger] self.children()[k]).loader_inv(post) by {
            self.children()[k].loader_inv_frame(pre, post);
        }
    }

    /// Query the children in order and return the first result; children
    /// after the first success are not consulted, and with no children (or
    /// none that succeeds) nothing is loaded.
    #[verifier::loop_isolation(false)]
    fn load_asset<H: AssetCreationHandler>(
        &mut self,
        store: &mut AssetStore,
        handler: &mut H,
        identifier: &str,
    ) -> (r: Option<Handle>)
        ensures
            old(self).children().len() == 0 ==> r is None && final(store)@ == old(store)@,
    {
        let ghost pre = store@;
        let n = self.loaders.len();
        if n == 0 {
            return None;
        }
        let mut i: usize = 0;
        while i < n
            invariant
                i <= n,
                n == self.loaders@.len(),
                store_wf(store@),
                loader_frame(pre, store@),
                forall|k: int|
                    0 <= k < self.children().len() ==> (#[trigger] self.children()[k]).loader_inv(
                        store@,
                    ),
            decreases n - i,
        {
            let ghost before = store@;
            let ghost prev = self.children();
            proof {
                assert(self.children()[i as int].loader_inv(store@));
            }
            let asset = self.loaders[i].load_asset(store, handler, identifier);
            proof {
                assert forall|k: int| 0 <= k < self.children().len() implies (
                #[trigger] self.children()[k]).loader_inv(store@) by {
                    if k != i as int {
                        assert(self.children()[k] == prev[k]);
                        assert(prev[k].loader_inv(before));
                        prev[k].loader_inv_frame(before, store@);
                    }
                }
                assert(loader_frame(pre, store@)) by {
                    assert forall|j: int| live(pre, j) implies live(store@, j) && (
                    #[trigger] store@[j]).value == pre[j].value && slack(store@, j) >= slack(
                        pre,
                        j,
                    ) by {
                        assert(live(before, j));
                    }
                }
            }
            if let Some(asset) = asset {
                proof {
                    assert(grants_handle(pre, store@, asset@)) by {
                        if live(pre, asset@) {
                            assert(live(before, asset@));
                            assert(slack(before, asset@) >= slack(pre, asset@));
                        }
                    }
                }
                return Some(asset);
            }
            i = i + 1;
        }
        None
    }
}

} // verus!
