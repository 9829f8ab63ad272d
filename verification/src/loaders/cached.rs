//! Provides the [CachedLoader] type, which keeps assets loaded by its child
//! loader in memory, returning the shared asset on repeated loads and
//! freeing unused ones when [`CachedLoader::garbage_collect`] is called.

use crate::handle::{
    grants_handle, live, loader_frame, slack, store_wf, AssetStore, Handle, SlotView,
};
use crate::{AssetCreationHandler, AssetLoader};
use vstd::prelude::*;

verus! {

/// The mathematical image of a cache: identifier, slot id, per entry.
pub open spec fn entry_views(s: Seq<(String, Handle)>) -> Seq<(Seq<char>, int)> {
    s.map_values(|e: (String, Handle)| (e.0@, e.1@))
}

/// The slot recorded for `key`, scanning entries (all keys are distinct, so
/// the direction does not matter).
pub open spec fn efind(es: Seq<(Seq<char>, int)>, key: Seq<char>) -> Option<int>
    decreases es.len(),
{
    if es.len() == 0 {
        None
    } else if es.last().0 == key {
        Some(es.last().1)
    } else {
        efind(es.drop_last(), key)
    }
}

/// How many entries hold a claim on slot `j`.
pub open spec fn emult(es: Seq<(Seq<char>, int)>, j: int) -> nat
    decreases es.len(),
{
    if es.len() == 0 {
        0
    } else {
        emult(es.drop_last(), j) + (if es.last().1 == j {
            1nat
        } else {
            0nat
        })
    }
}

/// No two entries share an identifier.
pub open spec fn ekeys_distinct(es: Seq<(Seq<char>, int)>) -> bool {
    forall|k1: int, k2: int|
        0 <= k1 < k2 < es.len() ==> (#[trigger] es[k1]).0 != (#[trigger] es[k2]).0
}

/// The cache's ground truth about the store: keys are distinct, every entry's
/// slot is live, and each slot's slack covers the claims the entries hold on
/// it.
pub open spec fn cache_wf(es: Seq<(Seq<char>, int)>, v: Seq<SlotView>) -> bool {
    &&& ekeys_distinct(es)
    &&& forall|k: int| 0 <= k < es.len() ==> live(v, (#[trigger] es[k]).1)
    &&& forall|j: int| 0 <= j < v.len() ==> emult(es, j) <= slack(v, j)
}

/// A present entry is found under its key.
pub proof fn lemma_efind_at(es: Seq<(Seq<char>, int)>, i: int)
    requires
        ekeys_distinct(es),
        0 <= i < es.len(),
    ensures
        efind(es, es[i].0) == Some(es[i].1),
    decreases es.len(),
{
    if i < es.len() - 1 {
        lemma_efind_at(es.drop_last(), i);
    }
}

/// A key no entry holds is not found.
pub proof fn lemma_efind_none(es: Seq<(Seq<char>, int)>, key: Seq<char>)
    requires
        forall|k: int| 0 <= k < es.len() ==> (#[trigger] es[k]).0 != key,
    ensures
        efind(es, key) is None,
    decreases es.len(),
{
    if es.len() > 0 {
        lemma_efind_none(es.drop_last(), key);
    }
}

/// A found slot belongs to some entry under that key.
pub proof fn lemma_efind_is_entry(es: Seq<(Seq<char>, int)>, key: Seq<char>)
    requires
        efind(es, key) is Some,
    ensures
        exists|k: int|
            0 <= k < es.len() && (#[trigger] es[k]).0 == key && es[k].1 == efind(es, key).unwrap(),
    decreases es.len(),
{
    if es.len() > 0 {
        if es.last().0 == key {
            assert(es[es.len() - 1].0 == key);
        } else {
            lemma_efind_is_entry(es.drop_last(), key);
            let k = choose|k: int|
                0 <= k < es.drop_last().len() && (#[trigger] es.drop_last()[k]).0 == key
                    && es.drop_last()[k].1 == efind(es.drop_last(), key).unwrap();
            assert(es[k].0 == key && es[k].1 == efind(es, key).unwrap());
        }
    }
}

/// An entry contributes to its slot's multiplicity.
pub proof fn lemma_emult_member(es: Seq<(Seq<char>, int)>, i: int)
    requires
        0 <= i < es.len(),
    ensures
        emult(es, es[i].1) >= 1,
    decreases es.len(),
{
    if i < es.len() - 1 {
        lemma_emult_member(es.drop_last(), i);
    }
}

/// A slot no entry records has multiplicity zero.
pub proof fn lemma_emult_zero(es: Seq<(Seq<char>, int)>, j: int)
    requires
        forall|k: int| 0 <= k < es.len() ==> (#[trigger] es[k]).1 != j,
    ensures
        emult(es, j) == 0,
    decreases es.len(),
{
    if es.len() > 0 {
        lemma_emult_zero(es.drop_last(), j);
    }
}

/// Removing one entry lowers exactly its slot's multiplicity by one.
pub proof fn lemma_emult_remove(es: Seq<(Seq<char>, int)>, i: int, j: int)
    requires
        0 <= i < es.len(),
    ensures
        emult(es.remove(i), j) + (if es[i].1 == j {
            1nat
        } else {
            0nat
        }) == emult(es, j),
    decreases es.len(),
{
    if i == es.len() - 1 {
        assert(es.remove(i) =~= es.drop_last());
    } else {
        assert(es.remove(i).drop_last() =~= es.drop_last().remove(i));
        lemma_emult_remove(es.drop_last(), i, j);
        assert(es.remove(i).last() == es.last());
    }
}

/// Removing an entry with a different key leaves a lookup unchanged.
pub proof fn lemma_efind_remove(es: Seq<(Seq<char>, int)>, i: int, key: Seq<char>)
    requires
        0 <= i < es.len(),
        es[i].0 != key,
    ensures
        efind(es.remove(i), key) == efind(es, key),
    decreases es.len(),
{
    if i == es.len() - 1 {
        assert(es.remove(i) =~= es.drop_last());
    } else {
        assert(es.remove(i).drop_last() =~= es.drop_last().remove(i));
        lemma_efind_remove(es.drop_last(), i, key);
        assert(es.remove(i).last() == es.last());
    }
}

/// How a finished collection pass relates the cache and store to where they
/// started: entries are a subset keeping their slots, surviving slots keep
/// their value, and slack was spent exactly as entries were removed.
pub open spec fn gc_rel(
    es: Seq<(Seq<char>, int)>,
    v: Seq<SlotView>,
    oes: Seq<(Seq<char>, int)>,
    ov: Seq<SlotView>,
) -> bool {
    &&& store_wf(v)
    &&& cache_wf(es, v)
    &&& v.len() == ov.len()
    &&& forall|k: int|
        0 <= k < es.len() ==> efind(oes, (#[trigger] es[k]).0) == Some(es[k].1)
    &&& forall|j: int|
        live(v, j) ==> live(ov, j) && (#[trigger] v[j]).value == ov[j].value && slack(v, j)
            + emult(oes, j) == slack(ov, j) + emult(es, j)
    &&& forall|j: int| live(ov, j) && slack(ov, j) >= emult(oes, j) + 1 ==> live(v, j)
    &&& forall|j: int| emult(es, j) <= #[trigger] emult(oes, j)
    &&& forall|k: int|
        0 <= k < oes.len() && slack(ov, (#[trigger] oes[k]).1) >= emult(oes, oes[k].1) + 1
            ==> efind(es, oes[k].0) == Some(oes[k].1)
}

/// A loader that caches the assets it loads, so that repeated loads of one
/// identifier share one asset.
///
/// Each cached asset is held through one claim of the cache's own. Use
/// [`CachedLoader::garbage_collect`] to free the assets that are currently
/// going entirely unused.
pub struct CachedLoader<Loader> {
    cache: Vec<(String, Handle)>,
    loader: Loader,
}

impl<Loader> CachedLoader<Loader> {
    /// The cached identifiers and the slots they name.
    pub closed spec fn entries(&self) -> Seq<(Seq<char>, int)> {
        entry_views(self.cache@)
    }

    /// The wrapped child loader.
    pub closed spec fn child(&self) -> Loader {
        self.loader
    }

    /// Create a new CachedLoader that caches the results of the given child
    /// loader.
    pub fn new(child: Loader) -> (r: Self)
        ensures
            r.entries() =~= Seq::<(Seq<char>, int)>::empty(),
            r.child() == child,
    {
        CachedLoader { cache: Vec::new(), loader: child }
    }

    /// Look up an identifier in the cache.
    #[verifier::loop_isolation(false)]
    fn find_entry(&self, key: &String) -> (r: Option<usize>)
        requires
            ekeys_distinct(self.entries()),
        ensures
            match r {
                Some(i) => i < self.entries().len() && self.entries()[i as int].0 == key@ && efind(
                    self.entries(),
                    key@,
                ) == Some(self.entries()[i as int].1),
                None => efind(self.entries(), key@) is None,
            },
    {
        let n = self.cache.len();
        let mut i: usize = 0;
        while i < n
            invariant
                i <= n,
                n == self.cache@.len(),
                forall|k: int| 0 <= k < i ==> (#[trigger] self.entries()[k]).0 != key@,
            decreases n - i,
        {
            if self.cache[i].0.eq(key) {
                proof {
                    lemma_efind_at(self.entries(), i as int);
                }
                return Some(i);
            }
            i = i + 1;
        }
        proof {
            lemma_efind_none(self.entries(), key@);
        }
        None
    }
}

impl<Loader> CachedLoader<Loader> {
    /// Garbage collect, freeing every cached asset whose only remaining
    /// claim is held by this CachedLoader.
    ///
    /// The sweep is repeated until it frees nothing, so that assets whose
    /// holders were themselves unused cached assets are freed in the same
    /// call. Afterwards every remaining entry is co-held by someone else
    /// (a cycle of assets that only reference each other stays cached: a
    /// reference count cannot tell such a cycle from outside use).
    #[verifier::loop_isolation(false)]
    #[verifier::rlimit(80)]
    pub fn garbage_collect(&mut self, store: &mut AssetStore)
        requires
            store_wf(old(store)@),
            cache_wf(old(self).entries(), old(store)@),
        ensures
            store_wf(final(store)@),
            cache_wf(final(self).entries(), final(store)@),
            final(self).child() == old(self).child(),
            gc_rel(final(self).entries(), final(store)@, old(self).entries(), old(store)@),
            forall|k: int|
                0 <= k < final(self).entries().len() ==> final(store)@[(
                #[trigger] final(self).entries()[k]).1].count >= 2,
    {
        let ghost oes = self.entries();
        let ghost ov = store@;
        proof {
            assert(gc_rel(oes, ov, oes, ov)) by {
                assert forall|k: int| 0 <= k < oes.len() implies efind(oes, (
                #[trigger] oes[k]).0) == Some(oes[k].1) by {
                    lemma_efind_at(oes, k);
                }
            }
        }
        loop
            invariant
                store_wf(store@),
                gc_rel(self.entries(), store@, oes, ov),
                self.loader == old(self).loader,
            decreases self.cache.len(),
        {
            let pass_len = self.cache.len();
            let ghost pass_es = self.entries();
            let ghost pass_v = store@;
            let mut work: Vec<(String, Handle)> = Vec::new();
            core::mem::swap(&mut self.cache, &mut work);
            let mut removed: usize = 0;
            proof {
                assert(self.entries() =~= Seq::<(Seq<char>, int)>::empty());
                assert(self.entries() + entry_views(work@) =~= pass_es);
            }
            while work.len() > 0
                invariant
                    store_wf(store@),
                    gc_rel(self.entries() + entry_views(work@), store@, oes, ov),
                    self.loader == old(self).loader,
                    self.cache@.len() + removed + work@.len() == pass_len,
                    removed == 0 ==> store@ == pass_v && self.entries() + entry_views(work@)
                        =~= pass_es,
                    removed == 0 ==> forall|k: int|
                        0 <= k < self.entries().len() ==> store@[(
                        #[trigger] self.entries()[k]).1].count >= 2,
                decreases work@.len(),
            {
                let ghost combined = self.entries() + entry_views(work@);
                let ghost kn = self.entries().len() as int;
                proof {
                    assert(combined[kn] == entry_views(work@)[0]);
                }
                let entry = work.remove(0);
                proof {
                    assert(entry.1@ == combined[kn].1);
                    assert(live(store@, entry.1@));
                }
                let rc = store.reference_count(&entry.1);
                if rc > 1 {
                    let ghost kept_before = self.entries();
                    let ghost eid = entry.1@;
                    self.cache.push(entry);
                    proof {
                        assert(self.entries() =~= kept_before.push((combined[kn].0, eid)));
                        assert(self.entries() + entry_views(work@) =~= combined);
                        if removed == 0 {
                            assert forall|k: int| 0 <= k < self.entries().len() implies store@[(
                            #[trigger] self.entries()[k]).1].count >= 2 by {
                                if k < kept_before.len() {
                                    assert(self.entries()[k] == kept_before[k]);
                                } else {
                                    assert(self.entries()[k].1 == eid);
                                }
                            }
                        }
                    }
                } else {
                    proof {
                        lemma_emult_member(combined, kn);
                        assert(emult(combined, entry.1@) <= slack(store@, entry.1@));
                        // the claim being released is covered by the entry
                        assert(slack(store@, entry.1@) >= 1);
                        // with a count of one, this entry is the only claim of
                        // any kind on the slot
                        assert(store@[entry.1@].count == 1);
                        assert(slack(store@, entry.1@) <= 1);
                        assert(emult(combined, entry.1@) == 1);
                    }
                    let ghost prev = store@;
                    let ghost eid = entry.1@;
                    let ghost ekey = combined[kn].0;
                    store.release(entry.1);
                    removed = removed + 1;
                    proof {
                        let ghost now = store@;
                        let ghost combined2 = self.entries() + entry_views(work@);
                        assert(combined2 =~= combined.remove(kn));
                        assert(!live(now, eid));
                        // multiplicities after the removal
                        assert forall|j: int| true implies emult(combined2, j) + (if j == eid {
                            1nat
                        } else {
                            0nat
                        }) == emult(combined, j) by {
                            lemma_emult_remove(combined, kn, j);
                        }
                        // every other entry survives with its claims
                        assert forall|k: int| 0 <= k < combined2.len() implies live(now, (
                        #[trigger] combined2[k]).1) by {
                            let korig: int = if k < kn {
                                k
                            } else {
                                k + 1
                            };
                            assert(combined2[k] == combined[korig]);
                            let j = combined2[k].1;
                            if j != eid {
                                assert(slack(prev, j) >= 1) by {
                                    lemma_emult_member(combined, korig);
                                }
                                assert(live(now, j));
                            } else {
                                lemma_emult_member(combined2, k);
                                assert(emult(combined, j) >= 2);
                            }
                        }
                        // cache_wf of what is left
                        assert(cache_wf(combined2, now)) by {
                            assert forall|k1: int, k2: int|
                                0 <= k1 < k2 < combined2.len() implies (
                            #[trigger] combined2[k1]).0 != (#[trigger] combined2[k2]).0 by {
                                let o1: int = if k1 < kn {
                                    k1
                                } else {
                                    k1 + 1
                                };
                                let o2: int = if k2 < kn {
                                    k2
                                } else {
                                    k2 + 1
                                };
                                assert(combined2[k1] == combined[o1]);
                                assert(combined2[k2] == combined[o2]);
                            }
                            assert forall|j: int| 0 <= j < now.len() implies emult(combined2, j)
                                <= slack(now, j) by {
                                if live(now, j) {
                                    assert(slack(now, j) == slack(prev, j) - (if j == eid {
                                        1int
                                    } else {
                                        0int
                                    }));
                                } else {
                                    assert forall|k: int| 0 <= k < combined2.len() implies (
                                    #[trigger] combined2[k]).1 != j by {}
                                    lemma_emult_zero(combined2, j);
                                    assert(now[j].count == 0);
                                    assert(now[j].count >= crate::handle::inbound(now, j));
                                    assert(slack(now, j) == 0);
                                }
                            }
                        }
                        // the pass relation back to the starting state
                        assert(gc_rel(combined2, now, oes, ov)) by {
                            assert forall|k: int| 0 <= k < combined2.len() implies efind(oes, (
                            #[trigger] combined2[k]).0) == Some(combined2[k].1) by {
                                let korig: int = if k < kn {
                                    k
                                } else {
                                    k + 1
                                };
                                assert(combined2[k] == combined[korig]);
                            }
                            assert forall|k: int|
                                0 <= k < oes.len() && slack(ov, (#[trigger] oes[k]).1) >= emult(
                                oes,
                                oes[k].1,
                            ) + 1 implies efind(combined2, oes[k].0) == Some(oes[k].1) by {
                                assert(efind(combined, oes[k].0) == Some(oes[k].1));
                                if ekey == oes[k].0 {
                                    assert(ekeys_distinct(combined));
                                    lemma_efind_at(combined, kn);
                                    assert(eid == oes[k].1);
                                    // a protected slot still had spare slack
                                    assert(slack(prev, eid) + emult(oes, eid) == slack(ov, eid)
                                        + emult(combined, eid));
                                    assert(slack(prev, eid) >= emult(combined, eid) + 1);
                                    assert(false);
                                } else {
                                    lemma_efind_remove(combined, kn, oes[k].0);
                                }
                            }
                        }
                    }
                }
            }
            proof {
                assert(self.entries() + entry_views(work@) =~= self.entries());
            }
            if removed == 0 {
                break ;
            }
        }
    }
}

/// Implement AssetLoader for the CachedLoader.
impl<Loader: AssetLoader> AssetLoader for CachedLoader<Loader> {
    open spec fn loader_inv(&self, store: Seq<SlotView>) -> bool {
        cache_wf(self.entries(), store) && self.child().loader_inv(store)
    }

    proof fn loader_inv_frame(&self, pre: Seq<SlotView>, post: Seq<SlotView>) {
        self.child().loader_inv_frame(pre, post);
        assert forall|j: int| 0 <= j < post.len() implies emult(self.entries(), j) <= slack(
            post,
            j,
        ) by {
            if j < pre.len() {
                if live(pre, j) {
                    assert(slack(pre, j) >= emult(self.entries(), j));
                } else {
                    assert(pre[j].count == 0);
                    assert(pre[j].count >= crate::handle::inbound(pre, j));
                    assert(slack(pre, j) == 0);
                    assert(emult(self.entries(), j) == 0);
                    assert(!live(post, j));
                    assert(post[j].count == 0);
                    assert(post[j].count >= crate::handle::inbound(post, j));
                }
            } else {
                assert forall|k: int| 0 <= k < self.entries().len() implies (
                #[trigger] self.entries()[k]).1 != j by {
                    assert(live(pre, self.entries()[k].1));
                }
                lemma_emult_zero(self.entries(), j);
            }
        }
    }

    /// Load an asset, returning the cached one if this identifier was loaded
    /// before. On a cache hit nothing else is consulted: the child loader
    /// and the handler are untouched. On a miss the child loader resolves
    /// the identifier; a result is recorded before being returned, and a
    /// failure leaves no record, so a later load asks the child again.
    fn load_asset<H: AssetCreationHandler>(
        &mut self,
        store: &mut AssetStore,
        handler: &mut H,
        identifier: &str,
    ) -> (r: Option<Handle>)
        ensures
            match efind(old(self).entries(), identifier@) {
                Some(s) => {
                    &&& *final(self) == *old(self)
                    &&& *final(handler) == *old(handler)
                    &&& (old(store)@[s].count < u64::MAX ==> (r matches Some(h) && h@ == s
                        && final(store)@ == old(store)@.update(
                        s,
                        SlotView {
                            count: (old(store)@[s].count + 1) as nat,
                            value: old(store)@[s].value,
                        },
                    )))
                    &&& (old(store)@[s].count == u64::MAX ==> r is None && final(store)@ == old(
                        store,
                    )@)
                },
                None => {
                    &&& (r is None ==> final(self).entries() == old(self).entries())
                    &&& (r matches Some(h) ==> (final(self).entries() == old(self).entries().push(
                        (identifier@, h@),
                    ) || (final(self).entries() == old(self).entries() && final(store)@[h@].count
                        == u64::MAX)))
                },
            },
    {
        let key: String = identifier.to_owned();
        let found = self.find_entry(&key);
        match found {
            Some(i) => {
                let rc = store.reference_count(&self.cache[i].1);
                if rc == u64::MAX {
                    None
                } else {
                    let h = store.clone_handle(&self.cache[i].1);
                    proof {
                        let ghost s = old(self).entries()[i as int].1;
                        assert(final(store)@ =~= old(store)@.update(
                            s,
                            SlotView {
                                count: (old(store)@[s].count + 1) as nat,
                                value: old(store)@[s].value,
                            },
                        ));
                        assert(cache_wf(self.entries(), store@)) by {
                            assert forall|j: int| 0 <= j < store@.len() implies emult(
                                self.entries(),
                                j,
                            ) <= slack(store@, j) by {}
                        }
                        self.loader.loader_inv_frame(old(store)@, store@);
                    }
                    Some(h)
                }
            },
            None => {
                let ghost pre = store@;
                let loaded = self.loader.load_asset(store, handler, identifier);
                let ghost mid = store@;
                proof {
                    assert forall|j: int| 0 <= j < mid.len() implies emult(self.entries(), j)
                        <= slack(mid, j) by {
                        if j < pre.len() {
                            if live(pre, j) {
                            } else {
                                assert(pre[j].count == 0);
                                assert(pre[j].count >= crate::handle::inbound(pre, j));
                                assert(!live(mid, j));
                                assert(mid[j].count == 0);
                                assert(mid[j].count >= crate::handle::inbound(mid, j));
                                assert(emult(self.entries(), j) == 0);
                            }
                        } else {
                            assert forall|k: int|
                                0 <= k < self.entries().len() implies (
                            #[trigger] self.entries()[k]).1 != j by {
                                assert(live(pre, self.entries()[k].1));
                            }
                            lemma_emult_zero(self.entries(), j);
                        }
                    }
                    assert forall|k: int| 0 <= k < self.entries().len() implies live(
                        mid,
                        (#[trigger] self.entries()[k]).1,
                    ) by {
                        assert(live(pre, self.entries()[k].1));
                    }
                    assert(cache_wf(self.entries(), mid));
                }
                match loaded {
                    None => None,
                    Some(h) => {
                        let rc = store.reference_count(&h);
                        if rc == u64::MAX {
                            Some(h)
                        } else {
                            let r = store.clone_handle(&h);
                            let ghost cloned = store@;
                            self.cache.push((key, h));
                            proof {
                                let ghost hid = r@;
                                assert(self.entries() =~= old(self).entries().push(
                                    (identifier@, hid),
                                ));
                                // the cache's new claim is covered by the
                                // grant; the returned clone by the fresh unit
                                assert(cache_wf(self.entries(), store@)) by {
                                    let ghost es2 = self.entries();
                                    let ghost es1 = old(self).entries();
                                    assert forall|k1: int, k2: int|
                                        0 <= k1 < k2 < es2.len() implies (#[trigger] es2[k1]).0
                                        != (#[trigger] es2[k2]).0 by {
                                        if k2 == es2.len() - 1 {
                                            assert(es2[k1].0 == es1[k1].0);
                                            assert(efind(es1, identifier@) is None);
                                            if es2[k1].0 == identifier@ {
                                                lemma_efind_at(es1, k1);
                                            }
                                        }
                                    }
                                    assert forall|k: int| 0 <= k < es2.len() implies live(
                                        store@,
                                        (#[trigger] es2[k]).1,
                                    ) by {
                                        if k < es2.len() - 1 {
                                            assert(es2[k] == es1[k]);
                                            assert(live(mid, es1[k].1));
                                        }
                                    }
                                    assert forall|j: int| 0 <= j < store@.len() implies emult(
                                        es2,
                                        j,
                                    ) <= slack(store@, j) by {
                                        assert(es2.drop_last() =~= es1);
                                        assert(emult(es2, j) == emult(es1, j) + (if j == hid {
                                            1nat
                                        } else {
                                            0nat
                                        }));
                                        if j == hid {
                                            assert(slack(cloned, hid) == slack(mid, hid) + 1);
                                            if live(pre, hid) {
                                                assert(slack(mid, hid) >= slack(pre, hid) + 1);
                                                assert(emult(es1, hid) <= slack(pre, hid));
                                            } else {
                                                assert(emult(es1, hid) == 0) by {
                                                    assert forall|k: int|
                                                        0 <= k < es1.len() implies (
                                                    #[trigger] es1[k]).1 != hid by {
                                                        assert(live(pre, es1[k].1));
                                                    }
                                                    lemma_emult_zero(es1, hid);
                                                }
                                                assert(slack(mid, hid) >= 1);
                                            }
                                        } else {
                                            assert(slack(cloned, j) == slack(mid, j));
                                        }
                                    }
                                }
                                self.loader.loader_inv_frame(mid, store@);
                                assert(loader_frame(pre, store@)) by {
                                    assert forall|j: int| live(pre, j) implies live(store@, j)
                                        && (#[trigger] store@[j]).value == pre[j].value && slack(
                                        store@,
                                        j,
                                    ) >= slack(pre, j) by {
                                        assert(live(mid, j));
                                    }
                                }
                            }
                            Some(r)
                        }
                    },
                }
            },
        }
    }
}

/// Idempotent caching: two consecutive loads of one identifier on the same
/// CachedLoader hand out claims on the same underlying storage, and once the
/// identifier is cached neither call touches the child loader's state or the
/// handler. The one escape is a count already saturating its machine
/// counter: then the second load declines rather than miscount.
pub fn loads_share_storage<Loader: AssetLoader, H: AssetCreationHandler>(
    cache: &mut CachedLoader<Loader>,
    store: &mut AssetStore,
    handler: &mut H,
    identifier: &str,
) -> (rr: (Option<Handle>, Option<Handle>))
    requires
        store_wf(old(store)@),
        old(cache).loader_inv(old(store)@),
    ensures
        rr.0 matches Some(h1) ==> (final(store)@[h1@].count < u64::MAX ==> (rr.1 matches Some(h2)
            && h2@ == h1@)),
        efind(old(cache).entries(), identifier@) is Some ==> *final(cache) == *old(cache)
            && *final(handler) == *old(handler),
{
    proof {
        store.counts_bounded();
    }
    let r1 = cache.load_asset(store, handler, identifier);
    proof {
        store.counts_bounded();
        match &r1 {
            Some(h1) => {
                match efind(old(cache).entries(), identifier@) {
                    Some(s) => {
                        lemma_efind_is_entry(old(cache).entries(), identifier@);
                        assert(live(old(store)@, s));
                        assert(old(store)@[s].count < u64::MAX);
                        assert(h1@ == s);
                        assert(efind(cache.entries(), identifier@) == Some(h1@));
                    },
                    None => {
                        if cache.entries() == old(cache).entries().push((identifier@, h1@)) {
                            assert(cache.entries().last() == (identifier@, h1@));
                            assert(efind(cache.entries(), identifier@) == Some(h1@));
                        }
                    },
                }
            },
            None => {},
        }
    }
    let ghost es1 = cache.entries();
    let ghost mid = store@;
    let r2 = cache.load_asset(store, handler, identifier);
    proof {
        store.counts_bounded();
        match &r1 {
            Some(h1) => {
                if efind(old(cache).entries(), identifier@) is None && es1 == old(
                    cache,
                ).entries() {
                    // the first load could not record the entry: the slot's
                    // count had saturated, and no later load lowers it
                    assert(mid[h1@].count == u64::MAX);
                    assert(live(mid, h1@));
                    crate::handle::lemma_inbound_frame_mono(mid, store@, h1@);
                    assert(store@[h1@].count >= mid[h1@].count);
                    assert(store@[h1@].count == u64::MAX);
                } else {
                    assert(efind(es1, identifier@) == Some(h1@));
                }
            },
            None => {},
        }
    }
    (r1, r2)
}

/// Memoization does not mask not-found: when the identifier is not cached
/// and the load fails, no entry is recorded, so a later load will consult
/// the child loader afresh.
pub fn failed_load_leaves_no_entry<Loader: AssetLoader, H: AssetCreationHandler>(
    cache: &mut CachedLoader<Loader>,
    store: &mut AssetStore,
    handler: &mut H,
    identifier: &str,
) -> (r: Option<Handle>)
    requires
        store_wf(old(store)@),
        old(cache).loader_inv(old(store)@),
        efind(old(cache).entries(), identifier@) is None,
    ensures
        r is None ==> final(cache).entries() == old(cache).entries(),
{
    cache.load_asset(store, handler, identifier)
}

/// The ToCached trait makes it easy to turn any loader into a cached loader:
/// invoke `to_cached()` upon it.
pub trait ToCached<T: AssetLoader>: Sized {
    /// Wrap this loader in a fresh, empty [`CachedLoader`].
    fn to_cached(self) -> (r: CachedLoader<T>)
        ensures
            r.entries() =~= Seq::<(Seq<char>, int)>::empty(),
    ;
}

/// Blanket implementation of ToCached for all asset loaders.
impl<Y: AssetLoader> ToCached<Y> for Y {
    fn to_cached(self) -> (r: CachedLoader<Y>)
        ensures
            r.child() == self,
    {
        CachedLoader::new(self)
    }
}

} // verus!
