//! The shared-handle store: a reference-counted arena of type-tagged asset
//! values.
//!
//! One `AssetStore` owns every loaded asset. A `Handle` is a non-copyable
//! claim on one slot of the store; each outstanding `Handle`, and each
//! reference recorded inside another asset's value, contributes one unit to
//! the slot's reference count. Giving up a claim goes through
//! [`AssetStore::release`], which frees a slot once its count reaches zero
//! and then cascades through the references the freed value held, so that a
//! chain of assets that kept each other alive is reclaimed as a whole.
//!
//! Type erasure is modelled as a tag carried beside the value: a handle is
//! "erased" in that nothing about its slot's tag is known statically, and
//! [`AssetStore::downcast`] recovers a typed claim exactly when the stored
//! tag is the requested one, handing the claim back unchanged on mismatch.

use vstd::prelude::*;

verus! {

/// The in-memory form of one loaded asset: a runtime type tag, an opaque
/// payload, and the ids of the other cached assets this value holds claims
/// on.
pub struct AssetValue {
    /// Runtime identity of the concrete asset type, checked by `downcast`.
    pub type_tag: u64,
    /// The asset's own payload bytes.
    pub bytes: Vec<u8>,
    /// Slot ids of other assets this value references; each occurrence
    /// contributes one unit to that slot's reference count.
    pub refs: Vec<usize>,
}

/// Mathematical image of an [`AssetValue`].
#[verifier::ext_equal]
pub struct AssetValueView {
    pub type_tag: u64,
    pub bytes: Seq<u8>,
    pub refs: Seq<usize>,
}

impl View for AssetValue {
    type V = AssetValueView;

    open spec fn view(&self) -> AssetValueView {
        AssetValueView { type_tag: self.type_tag, bytes: self.bytes@, refs: self.refs@ }
    }
}

/// Mathematical image of one store slot: its reference count and the value
/// it holds. A count of zero means the slot is free.
#[verifier::ext_equal]
pub struct SlotView {
    pub count: nat,
    pub value: AssetValueView,
}

struct Slot {
    count: u64,
    value: AssetValue,
}

/// A claim on one live slot of an [`AssetStore`]. Handles cannot be copied;
/// a second claim is minted only by [`AssetStore::clone_handle`], and a claim
/// is given up only through [`AssetStore::release`].
pub struct Handle {
    id: usize,
}

impl View for Handle {
    type V = int;

    closed spec fn view(&self) -> int {
        self.id as int
    }
}

impl Handle {
    /// The slot this handle points at.
    pub fn id(&self) -> (r: usize)
        ensures
            r as int == self@,
    {
        self.id
    }
}

/// How many times slot `j` occurs in the reference list `refs`.
pub open spec fn occ(refs: Seq<usize>, j: int) -> nat
    decreases refs.len(),
{
    if refs.len() == 0 {
        0
    } else {
        occ(refs.drop_last(), j) + (if refs.last() as int == j {
            1nat
        } else {
            0nat
        })
    }
}

/// How many references slot `s` holds to slot `j`.
pub open spec fn refs_from(s: SlotView, j: int) -> nat {
    occ(s.value.refs, j)
}

/// References to `j` held by the first `n` slots of the store.
pub open spec fn inbound_upto(v: Seq<SlotView>, j: int, n: int) -> nat
    decreases n,
{
    if n <= 0 {
        0
    } else {
        inbound_upto(v, j, n - 1) + refs_from(v[n - 1], j)
    }
}

/// References to `j` held inside values anywhere in the store.
pub open spec fn inbound(v: Seq<SlotView>, j: int) -> nat {
    inbound_upto(v, j, v.len() as int)
}

/// Slot `j` exists and is allocated.
pub open spec fn live(v: Seq<SlotView>, j: int) -> bool {
    0 <= j < v.len() && v[j].count > 0
}

/// The part of slot `j`'s count not accounted for by references held inside
/// other assets' values: the number of freestanding `Handle` claims on it.
pub open spec fn slack(v: Seq<SlotView>, j: int) -> int {
    v[j].count - inbound(v, j)
}

/// Every reference recorded in `refs` points at a live slot of `v`.
pub open spec fn refs_ok(v: Seq<SlotView>, refs: Seq<usize>) -> bool {
    forall|k: int| 0 <= k < refs.len() ==> live(v, #[trigger] refs[k] as int)
}

/// All recorded references stay inside the store.
pub open spec fn refs_in_bounds(v: Seq<SlotView>) -> bool {
    forall|j: int, k: int|
        0 <= j < v.len() && 0 <= k < v[j].value.refs.len() ==> (#[trigger] v[j].value.refs[k])
            < v.len()
}

/// Each slot's count covers the references other values hold to it, so a
/// referenced slot is always live and a count never underflows.
pub open spec fn counts_cover(v: Seq<SlotView>) -> bool {
    forall|j: int| 0 <= j < v.len() ==> (#[trigger] v[j].count) >= inbound(v, j)
}

/// Free slots hold nothing: their payload is gone and they pin no other slot.
pub open spec fn freed_clean(v: Seq<SlotView>) -> bool {
    forall|j: int|
        0 <= j < v.len() && (#[trigger] v[j].count) == 0 ==> v[j].value.bytes.len() == 0
            && v[j].value.refs.len() == 0
}

/// Well-formedness of a store between operations.
pub open spec fn store_wf(v: Seq<SlotView>) -> bool {
    refs_in_bounds(v) && counts_cover(v) && freed_clean(v)
}

/// A load has left every previously live slot live, with the same value and
/// at least the same number of freestanding claims; slots are never removed.
pub open spec fn loader_frame(pre: Seq<SlotView>, post: Seq<SlotView>) -> bool {
    &&& post.len() >= pre.len()
    &&& forall|j: int|
        live(pre, j) ==> live(post, j) && (#[trigger] post[j]).value == pre[j].value && slack(
            post,
            j,
        ) >= slack(pre, j)
    &&& forall|j: int| 0 <= j < pre.len() && !live(pre, j) ==> !live(post, j)
}

/// A returned handle is a fresh freestanding claim: one more unit of slack on
/// its slot than the caller started with.
pub open spec fn grants_handle(pre: Seq<SlotView>, post: Seq<SlotView>, id: int) -> bool {
    &&& live(post, id)
    &&& if live(pre, id) {
        slack(post, id) >= slack(pre, id) + 1
    } else {
        slack(post, id) >= 1
    }
}

/// A value may be wrapped: its references point at live slots whose counts
/// have room for the claims the new value will hold on them.
pub open spec fn wrap_ready(v: Seq<SlotView>, val: AssetValueView) -> bool {
    &&& refs_ok(v, val.refs)
    &&& forall|j: int| 0 <= j < v.len() ==> (#[trigger] v[j].count) + occ(val.refs, j) <= u64::MAX
}

/// Total number of recorded references in the store; the measure that the
/// reclamation sweep shrinks.
pub open spec fn total_refs(v: Seq<SlotView>) -> nat
    decreases v.len(),
{
    if v.len() == 0 {
        0
    } else {
        total_refs(v.drop_last()) + v.last().value.refs.len()
    }
}

proof fn lemma_occ_take_step(refs: Seq<usize>, j: int, k: int)
    requires
        0 <= k < refs.len(),
    ensures
        occ(refs.take(k + 1), j) == occ(refs.take(k), j) + (if refs[k] as int == j {
            1nat
        } else {
            0nat
        }),
{
    assert(refs.take(k + 1).drop_last() =~= refs.take(k));
    assert(refs.take(k + 1).last() == refs[k]);
}

proof fn lemma_occ_take_all(refs: Seq<usize>, j: int)
    ensures
        occ(refs.take(refs.len() as int), j) == occ(refs, j),
{
    assert(refs.take(refs.len() as int) =~= refs);
}

proof fn lemma_occ_take_le(refs: Seq<usize>, j: int, k: int)
    requires
        0 <= k <= refs.len(),
    ensures
        occ(refs.take(k), j) <= occ(refs, j),
    decreases refs.len() - k,
{
    if k == refs.len() {
        lemma_occ_take_all(refs, j);
    } else {
        lemma_occ_take_step(refs, j, k);
        lemma_occ_take_le(refs, j, k + 1);
    }
}

proof fn lemma_occ_member(refs: Seq<usize>, j: int, k: int)
    requires
        0 <= k < refs.len(),
        refs[k] as int == j,
    ensures
        occ(refs, j) > occ(refs.take(k), j),
{
    lemma_occ_take_step(refs, j, k);
    lemma_occ_take_le(refs, j, k + 1);
}

proof fn lemma_occ_not_member(refs: Seq<usize>, j: int)
    requires
        forall|k: int| 0 <= k < refs.len() ==> (#[trigger] refs[k]) as int != j,
    ensures
        occ(refs, j) == 0,
    decreases refs.len(),
{
    if refs.len() > 0 {
        lemma_occ_not_member(refs.drop_last(), j);
    }
}

proof fn lemma_inbound_upto_update(v: Seq<SlotView>, s: int, sv: SlotView, j: int, n: int)
    requires
        0 <= s < v.len(),
        n <= v.len(),
    ensures
        s < n ==> inbound_upto(v.update(s, sv), j, n) + refs_from(v[s], j) == inbound_upto(v, j, n)
            + refs_from(sv, j),
        s >= n ==> inbound_upto(v.update(s, sv), j, n) == inbound_upto(v, j, n),
    decreases n,
{
    if n > 0 {
        lemma_inbound_upto_update(v, s, sv, j, n - 1);
    }
}

/// Replacing one slot changes each inbound total by the difference of that
/// slot's contributions.
pub proof fn lemma_inbound_update(v: Seq<SlotView>, s: int, sv: SlotView, j: int)
    requires
        0 <= s < v.len(),
    ensures
        inbound(v.update(s, sv), j) + refs_from(v[s], j) == inbound(v, j) + refs_from(sv, j),
{
    lemma_inbound_upto_update(v, s, sv, j, v.len() as int);
}

proof fn lemma_inbound_upto_refs_only(v1: Seq<SlotView>, v2: Seq<SlotView>, j: int, n: int)
    requires
        v1.len() == v2.len(),
        n <= v1.len(),
        forall|i: int| 0 <= i < v1.len() ==> (#[trigger] v1[i]).value.refs == v2[i].value.refs,
    ensures
        inbound_upto(v1, j, n) == inbound_upto(v2, j, n),
    decreases n,
{
    if n > 0 {
        lemma_inbound_upto_refs_only(v1, v2, j, n - 1);
    }
}

/// Inbound totals depend only on the recorded reference lists, not on counts
/// or payloads.
pub proof fn lemma_inbound_refs_only(v1: Seq<SlotView>, v2: Seq<SlotView>, j: int)
    requires
        v1.len() == v2.len(),
        forall|i: int| 0 <= i < v1.len() ==> (#[trigger] v1[i]).value.refs == v2[i].value.refs,
    ensures
        inbound(v1, j) == inbound(v2, j),
{
    lemma_inbound_upto_refs_only(v1, v2, j, v1.len() as int);
}

/// Appending a slot adds its contribution to each inbound total.
pub proof fn lemma_inbound_push(v: Seq<SlotView>, sv: SlotView, j: int)
    ensures
        inbound(v.push(sv), j) == inbound(v, j) + refs_from(sv, j),
{
    let w = v.push(sv);
    assert(inbound_upto(w, j, v.len() as int) == inbound_upto(v, j, v.len() as int)) by {
        lemma_inbound_upto_agree(w, v, j, v.len() as int);
    }
    assert(w[v.len() as int] == sv);
}

proof fn lemma_inbound_upto_agree(v1: Seq<SlotView>, v2: Seq<SlotView>, j: int, n: int)
    requires
        n <= v1.len(),
        n <= v2.len(),
        forall|i: int| 0 <= i < n ==> v1[i] == v2[i],
    ensures
        inbound_upto(v1, j, n) == inbound_upto(v2, j, n),
    decreases n,
{
    if n > 0 {
        lemma_inbound_upto_agree(v1, v2, j, n - 1);
    }
}

proof fn lemma_inbound_upto_ge(v: Seq<SlotView>, j: int, s: int, n: int)
    requires
        0 <= s < n <= v.len(),
    ensures
        inbound_upto(v, j, n) >= refs_from(v[s], j),
    decreases n,
{
    if s < n - 1 {
        lemma_inbound_upto_ge(v, j, s, n - 1);
    }
}

/// An inbound total is at least the contribution of any one slot.
pub proof fn lemma_inbound_ge_refs_from(v: Seq<SlotView>, j: int, s: int)
    requires
        0 <= s < v.len(),
    ensures
        inbound(v, j) >= refs_from(v[s], j),
{
    lemma_inbound_upto_ge(v, j, s, v.len() as int);
}

proof fn lemma_inbound_upto_oob(v: Seq<SlotView>, j: int, n: int)
    requires
        refs_in_bounds(v),
        n <= v.len(),
        j >= v.len(),
    ensures
        inbound_upto(v, j, n) == 0,
    decreases n,
{
    if n > 0 {
        lemma_inbound_upto_oob(v, j, n - 1);
        assert forall|k: int| 0 <= k < v[n - 1].value.refs.len() implies (#[trigger] v[n
            - 1].value.refs[k]) as int != j by {}
        lemma_occ_not_member(v[n - 1].value.refs, j);
    }
}

/// Nothing inside a well-bounded store references a slot beyond its end.
pub proof fn lemma_inbound_oob(v: Seq<SlotView>, j: int)
    requires
        refs_in_bounds(v),
        j >= v.len(),
    ensures
        inbound(v, j) == 0,
{
    lemma_inbound_upto_oob(v, j, v.len() as int);
}

proof fn lemma_total_refs_agree(v1: Seq<SlotView>, v2: Seq<SlotView>)
    requires
        v1.len() == v2.len(),
        forall|i: int| 0 <= i < v1.len() ==> v1[i].value.refs.len() == v2[i].value.refs.len(),
    ensures
        total_refs(v1) == total_refs(v2),
    decreases v1.len(),
{
    if v1.len() > 0 {
        lemma_total_refs_agree(v1.drop_last(), v2.drop_last());
    }
}

proof fn lemma_total_refs_update(v: Seq<SlotView>, s: int, sv: SlotView)
    requires
        0 <= s < v.len(),
    ensures
        total_refs(v.update(s, sv)) + v[s].value.refs.len() == total_refs(v)
            + sv.value.refs.len(),
    decreases v.len(),
{
    let w = v.update(s, sv);
    if s == v.len() - 1 {
        assert(w.drop_last() =~= v.drop_last());
    } else {
        assert(w.drop_last() =~= v.drop_last().update(s, sv));
        lemma_total_refs_update(v.drop_last(), s, sv);
    }
}

proof fn lemma_inbound_upto_mono(v: Seq<SlotView>, j: int, n1: int, n2: int)
    requires
        0 <= n1 <= n2 <= v.len(),
    ensures
        inbound_upto(v, j, n1) <= inbound_upto(v, j, n2),
    decreases n2 - n1,
{
    if n1 < n2 {
        lemma_inbound_upto_mono(v, j, n1, n2 - 1);
    }
}

proof fn lemma_inbound_upto_agree_refs(v1: Seq<SlotView>, v2: Seq<SlotView>, j: int, n: int)
    requires
        n <= v1.len(),
        n <= v2.len(),
        forall|i: int| 0 <= i < n ==> (#[trigger] v1[i]).value.refs == v2[i].value.refs,
    ensures
        inbound_upto(v1, j, n) == inbound_upto(v2, j, n),
    decreases n,
{
    if n > 0 {
        lemma_inbound_upto_agree_refs(v1, v2, j, n - 1);
    }
}

/// A load never lowers the number of references recorded against a slot:
/// surviving slots keep their reference lists and new slots only add.
pub proof fn lemma_inbound_frame_mono(pre: Seq<SlotView>, post: Seq<SlotView>, j: int)
    requires
        store_wf(pre),
        store_wf(post),
        loader_frame(pre, post),
    ensures
        inbound(post, j) >= inbound(pre, j),
{
    assert forall|i: int| 0 <= i < pre.len() implies (#[trigger] post[i]).value.refs
        == pre[i].value.refs by {
        if live(pre, i) {
        } else {
            assert(!live(post, i));
            assert(pre[i].value.refs.len() == 0);
            assert(post[i].value.refs.len() == 0);
            assert(post[i].value.refs =~= pre[i].value.refs);
        }
    }
    lemma_inbound_upto_agree_refs(post, pre, j, pre.len() as int);
    lemma_inbound_upto_mono(post, j, pre.len() as int, post.len() as int);
}

/// Everything the reclamation sweep keeps true about the store, relative to
/// the well-formed state `orig` it started from and the slot `id` whose claim
/// is being given up. A "zombie" is a slot whose count has reached zero but
/// whose reference list has not yet been cascaded.
spec fn sweep_inv(cur: Seq<SlotView>, orig: Seq<SlotView>, id: int) -> bool {
    &&& store_wf(orig)
    &&& cur.len() == orig.len()
    &&& refs_in_bounds(cur)
    &&& counts_cover(cur)
    &&& forall|j: int|
        0 <= j < cur.len() && (#[trigger] cur[j].count) == 0 ==> cur[j].value.bytes.len() == 0
    &&& forall|j: int|
        live(cur, j) ==> live(orig, j) && (#[trigger] cur[j]).value == orig[j].value && slack(
            cur,
            j,
        ) == slack(orig, j) - (if j == id {
            1int
        } else {
            0int
        })
    &&& forall|j: int|
        0 <= j < cur.len() ==> (#[trigger] cur[j].count) + (if j == id {
            1nat
        } else {
            0nat
        }) <= orig[j].count
    &&& forall|j: int| 0 <= j < orig.len() && !live(orig, j) ==> (#[trigger] cur[j]) == orig[j]
    &&& forall|j: int|
        live(orig, j) && slack(orig, j) >= 1 + (if j == id {
            1int
        } else {
            0int
        }) ==> live(cur, j)
}

/// The store of loaded assets. All handles circulating in a program are
/// claims on slots of one store, and all reference-count movement happens
/// through the store's own methods.
pub struct AssetStore {
    slots: Vec<Slot>,
}

impl View for AssetStore {
    type V = Seq<SlotView>;

    closed spec fn view(&self) -> Seq<SlotView> {
        self.slots@.map_values(|s: Slot| SlotView { count: s.count as nat, value: s.value@ })
    }
}

impl AssetStore {
    /// Every slot's count fits the machine counter it is kept in.
    pub proof fn counts_bounded(&self)
        ensures
            forall|j: int| 0 <= j < self@.len() ==> (#[trigger] self@[j].count) <= u64::MAX,
    {
        assert forall|j: int| 0 <= j < self@.len() implies (#[trigger] self@[j].count)
            <= u64::MAX by {
            assert(self@[j].count == self.slots@[j].count as nat);
        }
    }

    /// An empty store.
    pub fn new() -> (r: AssetStore)
        ensures
            r@ =~= Seq::<SlotView>::empty(),
            store_wf(r@),
    {
        AssetStore { slots: Vec::new() }
    }

    /// Number of slots ever allocated (free ones included).
    pub fn len(&self) -> (r: usize)
        ensures
            r as nat == self@.len(),
    {
        self.slots.len()
    }

    /// Whether slot `id` is currently allocated.
    pub fn is_live(&self, id: usize) -> (r: bool)
        ensures
            r == live(self@, id as int),
    {
        id < self.slots.len() && self.slots[id].count > 0
    }

    /// The current number of claims on the handle's slot: freestanding
    /// handles plus references held inside other assets' values.
    pub fn reference_count(&self, h: &Handle) -> (r: u64)
        requires
            live(self@, h@),
        ensures
            r as nat == self@[h@].count,
    {
        self.slots[h.id].count
    }

    /// Read the value a live handle points at.
    pub fn value(&self, h: &Handle) -> (r: &AssetValue)
        requires
            live(self@, h@),
        ensures
            r@ == self@[h@].value,
    {
        &self.slots[h.id].value
    }

    /// The runtime type tag of the handle's slot.
    pub fn type_tag(&self, h: &Handle) -> (r: u64)
        requires
            live(self@, h@),
        ensures
            r == self@[h@].value.type_tag,
    {
        self.slots[h.id].value.type_tag
    }

    /// Recover a typed claim from an erased one: succeeds, returning the same
    /// claim, exactly when the slot's runtime tag is `type_tag`; on mismatch
    /// the original claim comes back untouched. The store is not changed
    /// either way.
    pub fn downcast(&self, h: Handle, type_tag: u64) -> (r: Result<Handle, Handle>)
        requires
            live(self@, h@),
        ensures
            match r {
                Ok(h2) => h2@ == h@ && self@[h@].value.type_tag == type_tag,
                Err(h2) => h2@ == h@ && self@[h@].value.type_tag != type_tag,
            },
    {
        if self.slots[h.id].value.type_tag == type_tag {
            Ok(h)
        } else {
            Err(h)
        }
    }

    /// Allocate a new slot holding `value` and return the one claim on it.
    /// Each reference inside `value` is charged to its target's count, so the
    /// referenced assets stay alive as long as this one does.
    #[verifier::loop_isolation(false)]
    pub fn wrap(&mut self, value: AssetValue) -> (h: Handle)
        requires
            store_wf(old(self)@),
            wrap_ready(old(self)@, value@),
        ensures
            store_wf(final(self)@),
            h@ == old(self)@.len(),
            final(self)@.len() == old(self)@.len() + 1,
            live(final(self)@, h@),
            final(self)@[h@].value == value@,
            final(self)@[h@].count == 1,
            slack(final(self)@, h@) == 1,
            forall|j: int|
                0 <= j < old(self)@.len() ==> (#[trigger] final(self)@[j]).value == old(
                    self,
                )@[j].value && final(self)@[j].count == old(self)@[j].count + occ(value@.refs, j)
                    && live(final(self)@, j) == live(old(self)@, j) && slack(final(self)@, j)
                    == slack(old(self)@, j),
            loader_frame(old(self)@, final(self)@),
            grants_handle(old(self)@, final(self)@, old(self)@.len() as int),
    {
        let ghost pre = self@;
        let id = self.slots.len();
        // charge the new value's references to their targets
        let n = value.refs.len();
        let mut k: usize = 0;
        while k < n
            invariant
                k <= n,
                self@.len() == pre.len(),
                forall|j: int|
                    0 <= j < pre.len() ==> (#[trigger] self@[j]).value == pre[j].value
                        && self@[j].count == pre[j].count + occ(value.refs@.take(k as int), j),
            decreases n - k,
        {
            let ghost before = self@;
            let t = value.refs[k];
            proof {
                assert(live(pre, t as int));
                lemma_occ_member(value.refs@, t as int, k as int);
                lemma_occ_take_le(value.refs@, t as int, k as int + 1);
                assert(before[t as int].count + 1 <= pre[t as int].count + occ(
                    value.refs@,
                    t as int,
                ));
            }
            let c = self.slots[t].count;
            self.slots[t].count = c + 1;
            proof {
                assert(self@ =~= before.update(
                    t as int,
                    SlotView { count: before[t as int].count + 1, value: before[t as int].value },
                ));
                assert forall|j: int| 0 <= j < pre.len() implies (#[trigger] self@[j]).value
                    == pre[j].value && self@[j].count == pre[j].count + occ(
                    value.refs@.take(k as int + 1),
                    j,
                ) by {
                    lemma_occ_take_step(value.refs@, j, k as int);
                }
            }
            k = k + 1;
        }
        let ghost mid = self@;
        proof {
            assert(value.refs@.take(n as int) =~= value.refs@);
        }
        self.slots.push(Slot { count: 1, value });
        proof {
            let ghost post = self@;
            let ghost sv = post[id as int];
            assert(post =~= mid.push(sv));
            assert(post == mid.push(sv));
            // nothing references the new slot, not even itself
            assert forall|k2: int| 0 <= k2 < sv.value.refs.len() implies (
            #[trigger] sv.value.refs[k2]) as int != id as int by {
                assert(live(pre, sv.value.refs[k2] as int));
            }
            assert forall|j: int| true implies inbound(post, j) == inbound(pre, j) + occ(
                sv.value.refs,
                j,
            ) by {
                lemma_inbound_push(mid, sv, j);
                lemma_inbound_refs_only(mid, pre, j);
            }
            lemma_occ_not_member(sv.value.refs, id as int);
            lemma_inbound_oob(pre, id as int);
            assert(slack(post, id as int) == 1);
            assert forall|j: int| 0 <= j < pre.len() implies (#[trigger] post[j]).value
                == pre[j].value && post[j].count == pre[j].count + occ(value@.refs, j) && live(
                post,
                j,
            ) == live(pre, j) && slack(post, j) == slack(pre, j) by {
                assert(post[j] == mid[j]);
                assert(mid[j].count == pre[j].count + occ(value.refs@.take(n as int), j));
                if !live(pre, j) {
                    assert forall|k2: int| 0 <= k2 < value@.refs.len() implies (
                    #[trigger] value@.refs[k2]) as int != j by {
                        assert(live(pre, value@.refs[k2] as int));
                    }
                    lemma_occ_not_member(value@.refs, j);
                }
            }
            assert(counts_cover(post)) by {
                assert forall|j: int| 0 <= j < post.len() implies (#[trigger] post[j].count)
                    >= inbound(post, j) by {
                    if j < pre.len() {
                        assert(pre[j].count >= inbound(pre, j));
                    }
                }
            }
            assert(store_wf(post));
        }
        Handle { id }
    }

    /// Mint a second claim on a live slot: the count rises by one and the new
    /// handle points at the same storage.
    pub fn clone_handle(&mut self, h: &Handle) -> (r: Handle)
        requires
            store_wf(old(self)@),
            live(old(self)@, h@),
            old(self)@[h@].count < u64::MAX,
        ensures
            store_wf(final(self)@),
            r@ == h@,
            final(self)@.len() == old(self)@.len(),
            final(self)@[h@].value == old(self)@[h@].value,
            final(self)@[h@].count == old(self)@[h@].count + 1,
            slack(final(self)@, h@) == slack(old(self)@, h@) + 1,
            forall|j: int|
                0 <= j < old(self)@.len() && j != h@ ==> (#[trigger] final(self)@[j]) == old(
                    self,
                )@[j] && slack(final(self)@, j) == slack(old(self)@, j),
            forall|j: int| live(final(self)@, j) == live(old(self)@, j),
            loader_frame(old(self)@, final(self)@),
            grants_handle(old(self)@, final(self)@, h@),
    {
        let ghost pre = self@;
        let id = h.id;
        let c = self.slots[id].count;
        self.slots[id].count = c + 1;
        proof {
            let ghost post = self@;
            assert(post =~= pre.update(
                id as int,
                SlotView { count: pre[id as int].count + 1, value: pre[id as int].value },
            ));
            assert forall|j: int| true implies inbound(post, j) == inbound(pre, j) by {
                lemma_inbound_refs_only(post, pre, j);
            }
        }
        Handle { id }
    }

    /// Give up one claim on a live slot. If it was the last, the slot is
    /// freed and every claim its value held is given up in turn, cascading
    /// through any chain of assets that only kept each other alive. Slots on
    /// which some other claim remains keep their value; a slot whose count
    /// was 1 is gone when the call returns.
    #[verifier::loop_isolation(false)]
    pub fn release(&mut self, h: Handle)
        requires
            store_wf(old(self)@),
            live(old(self)@, h@),
            slack(old(self)@, h@) >= 1,
        ensures
            store_wf(final(self)@),
            final(self)@.len() == old(self)@.len(),
            forall|j: int|
                live(final(self)@, j) ==> live(old(self)@, j) && (#[trigger] final(self)@[j]).value
                    == old(self)@[j].value && slack(final(self)@, j) == slack(old(self)@, j) - (
                if j == h@ {
                    1int
                } else {
                    0int
                }),
            forall|j: int|
                live(old(self)@, j) && slack(old(self)@, j) >= 1 + (if j == h@ {
                    1int
                } else {
                    0int
                }) ==> live(final(self)@, j),
            old(self)@[h@].count == 1 ==> !live(final(self)@, h@),
            forall|j: int|
                0 <= j < old(self)@.len() && !live(old(self)@, j) ==> (#[trigger] final(self)@[j])
                    == old(self)@[j],
    {
        let ghost orig = self@;
        let id = h.id;
        let c = self.slots[id].count;
        self.slots[id].count = c - 1;
        if c == 1 {
            self.slots[id].value.bytes = Vec::new();
        }
        proof {
            let ghost cur = self@;
            assert(cur =~= orig.update(id as int, cur[id as int]));
            assert(cur[id as int].value.refs == orig[id as int].value.refs);
            assert forall|j: int| true implies inbound(cur, j) == inbound(orig, j) by {
                lemma_inbound_refs_only(cur, orig, j);
            }
            assert(cur.len() == orig.len());
            assert(refs_in_bounds(cur));
            assert(counts_cover(cur));
            assert forall|j: int|
                0 <= j < cur.len() && (#[trigger] cur[j].count) == 0 implies cur[j].value.bytes.len()
                == 0 by {}
            assert forall|j: int| live(cur, j) implies live(orig, j) && (
            #[trigger] cur[j]).value == orig[j].value && slack(cur, j) == slack(orig, j) - (
            if j == id as int {
                1int
            } else {
                0int
            }) by {}
            assert forall|j: int|
                0 <= j < cur.len() implies (#[trigger] cur[j].count) + (if j == id as int {
                    1nat
                } else {
                    0nat
                }) <= orig[j].count by {}
            assert forall|j: int| 0 <= j < orig.len() && !live(orig, j) implies (
            #[trigger] cur[j]) == orig[j] by {}
            assert forall|j: int|
                live(orig, j) && slack(orig, j) >= 1 + (if j == id as int {
                    1int
                } else {
                    0int
                }) implies live(cur, j) by {}
            assert(sweep_inv(cur, orig, id as int));
        }
        loop
            invariant
                sweep_inv(self@, orig, h@),
            decreases total_refs(self@),
        {
            let z = self.find_zombie();
            match z {
                None => {
                    break ;
                },
                Some(j) => {
                    self.process_zombie(j, Ghost(orig), Ghost(h@));
                },
            }
        }
    }

    /// Find a slot whose count has reached zero but whose reference list has
    /// not yet been cascaded.
    #[verifier::loop_isolation(false)]
    fn find_zombie(&self) -> (r: Option<usize>)
        ensures
            match r {
                Some(j) => j < self@.len() && self@[j as int].count == 0
                    && self@[j as int].value.refs.len() > 0,
                None => forall|j: int|
                    0 <= j < self@.len() && (#[trigger] self@[j].count) == 0
                        ==> self@[j].value.refs.len() == 0,
            },
    {
        let n = self.slots.len();
        let mut i: usize = 0;
        while i < n
            invariant
                i <= n,
                forall|j: int|
                    0 <= j < i && (#[trigger] self@[j].count) == 0 ==> self@[j].value.refs.len()
                        == 0,
            decreases n - i,
        {
            if self.slots[i].count == 0 && self.slots[i].value.refs.len() > 0 {
                return Some(i);
            }
            i = i + 1;
        }
        None
    }

    /// Cascade one freed slot: take its reference list and give up each of
    /// those claims, freeing further slots whose count reaches zero.
    #[verifier::loop_isolation(false)]
    fn process_zombie(&mut self, z: usize, Ghost(orig): Ghost<Seq<SlotView>>, Ghost(id): Ghost<int>)
        requires
            sweep_inv(old(self)@, orig, id),
            z < old(self)@.len(),
            old(self)@[z as int].count == 0,
            old(self)@[z as int].value.refs.len() > 0,
        ensures
            sweep_inv(final(self)@, orig, id),
            total_refs(final(self)@) < total_refs(old(self)@),
    {
        let ghost pre = self@;
        let mut taken: Vec<usize> = Vec::new();
        core::mem::swap(&mut self.slots[z].value.refs, &mut taken);
        let ghost mid = self@;
        proof {
            let ghost sv = mid[z as int];
            assert(mid =~= pre.update(z as int, sv));
            assert forall|j: int| true implies inbound(mid, j) + occ(taken@, j) == inbound(pre, j)
                by {
                lemma_inbound_update(pre, z as int, sv, j);
            }
            lemma_total_refs_update(pre, z as int, sv);
            // the zombie itself was live in `orig`: a free slot of a
            // well-formed store has no reference list to cascade
            assert(live(orig, z as int));
        }
        let n = taken.len();
        let mut k: usize = 0;
        while k < n
            invariant
                k <= n,
                self@.len() == mid.len(),
                forall|j: int|
                    0 <= j < mid.len() ==> (#[trigger] self@[j]).count + occ(
                        taken@.take(k as int),
                        j,
                    ) == mid[j].count,
                forall|j: int|
                    0 <= j < mid.len() ==> (#[trigger] self@[j]).value.type_tag
                        == mid[j].value.type_tag && self@[j].value.refs == mid[j].value.refs,
                forall|j: int|
                    0 <= j < mid.len() && (#[trigger] self@[j]).count > 0 ==> self@[j].value.bytes
                        == mid[j].value.bytes,
                forall|j: int|
                    0 <= j < mid.len() && (#[trigger] self@[j]).count == 0
                        ==> self@[j].value.bytes.len() == 0,
            decreases n - k,
        {
            let ghost before = self@;
            let t = taken[k];
            proof {
                assert(t < mid.len()) by {
                    assert(refs_in_bounds(pre));
                    assert(pre[z as int].value.refs == taken@);
                }
                // the claim being applied is still counted: no underflow
                lemma_occ_member(taken@, t as int, k as int);
                assert(inbound(mid, t as int) + occ(taken@, t as int) == inbound(pre, t as int));
                assert(pre[t as int].count >= inbound(pre, t as int));
                assert(mid[t as int].count == pre[t as int].count);
                assert(before[t as int].count >= 1);
            }
            let c = self.slots[t].count;
            self.slots[t].count = c - 1;
            if c == 1 {
                self.slots[t].value.bytes = Vec::new();
            }
            proof {
                assert(self@ =~= before.update(t as int, self@[t as int]));
                assert forall|j: int| 0 <= j < mid.len() implies (#[trigger] self@[j]).count + occ(
                    taken@.take(k as int + 1),
                    j,
                ) == mid[j].count by {
                    lemma_occ_take_step(taken@, j, k as int);
                }
            }
            k = k + 1;
        }
        proof {
            let ghost post = self@;
            assert(taken@.take(n as int) =~= taken@);
            assert forall|j: int| 0 <= j < mid.len() implies (#[trigger] post[j]).count + occ(
                taken@,
                j,
            ) == pre[j].count by {}
            // reference lists were untouched after the extraction
            assert forall|j: int| true implies inbound(post, j) == inbound(mid, j) by {
                lemma_inbound_refs_only(post, mid, j);
            }
            lemma_total_refs_agree(post, mid);
            assert(total_refs(post) < total_refs(pre));
            // counts still cover inbound references
            assert(counts_cover(post)) by {
                assert forall|j: int| 0 <= j < post.len() implies (#[trigger] post[j].count)
                    >= inbound(post, j) by {
                    assert(pre[j].count >= inbound(pre, j));
                    assert(inbound(mid, j) + occ(taken@, j) == inbound(pre, j));
                }
            }
            // live slots keep their value and their slack
            assert forall|j: int| live(post, j) implies live(orig, j) && (
            #[trigger] post[j]).value == orig[j].value && slack(post, j) == slack(orig, j) - (
            if j == id {
                1int
            } else {
                0int
            }) by {
                assert(post[j].count > 0);
                assert(pre[j].count > 0);
                assert(live(pre, j));
                assert(pre[j].value == orig[j].value);
                assert(post[j].value.bytes == mid[j].value.bytes);
                assert(mid[j].value == pre[j].value || j == z as int);
                assert(j != z as int);
                assert(slack(pre, j) == slack(orig, j) - (if j == id {
                    1int
                } else {
                    0int
                }));
                assert(inbound(post, j) + occ(taken@, j) == inbound(pre, j));
            }
            // slots protected by a spare claim survive the cascade
            assert forall|j: int|
                live(orig, j) && slack(orig, j) >= 1 + (if j == id {
                    1int
                } else {
                    0int
                }) implies live(post, j) by {
                assert(live(pre, j));
                assert(slack(pre, j) >= 1);
                assert(pre[j].count >= inbound(pre, j) + 1);
                assert(post[j].count + occ(taken@, j) == pre[j].count);
                assert(inbound(mid, j) + occ(taken@, j) == inbound(pre, j));
                assert(post[j].count >= inbound(mid, j) + 1);
            }
            // slots free in `orig` were never touched
            assert forall|j: int| 0 <= j < orig.len() && !live(orig, j) implies (
            #[trigger] post[j]) == orig[j] by {
                assert(pre[j] == orig[j]);
                assert(orig[j].count == 0);
                assert(occ(taken@, j) <= inbound(pre, j)) by {
                    assert(inbound(mid, j) + occ(taken@, j) == inbound(pre, j));
                }
                assert(inbound(pre, j) <= pre[j].count);
                assert(occ(taken@, j) == 0);
                assert(post[j].count == 0);
                assert(j != z as int);
                assert(post[j].value.refs == mid[j].value.refs);
                assert(mid[j].value.refs == pre[j].value.refs);
                assert(post[j].value.bytes.len() == 0);
                assert(orig[j].value.bytes.len() == 0);
                assert(post[j].value.bytes =~= orig[j].value.bytes);
                assert(post[j] =~~= orig[j]);
            }
            assert(sweep_inv(post, orig, id));
        }
    }
}

/// Downcast safety, end to end: wrapping a value and downcasting the erased
/// claim to a wrong tag refuses and hands the same claim back unchanged,
/// after which downcasting to the value's own tag accepts that claim; the
/// store never changes past the initial wrap, so the failed attempt is
/// non-destructive.
pub fn downcast_round_trip(store: &mut AssetStore, value: AssetValue, other_tag: u64) -> (r:
    Handle)
    requires
        store_wf(old(store)@),
        wrap_ready(old(store)@, value@),
        other_tag != value.type_tag,
    ensures
        store_wf(final(store)@),
        r@ == old(store)@.len(),
        live(final(store)@, r@),
        final(store)@[r@].value == value@,
        final(store)@[r@].count == 1,
{
    let tag = value.type_tag;
    let h = store.wrap(value);
    let ghost wrapped = store@;
    let h = match store.downcast(h, other_tag) {
        Ok(h2) => {
            proof {
                // a mismatched tag is never accepted
                assert(false);
            }
            h2
        },
        Err(h2) => h2,
    };
    let h = match store.downcast(h, tag) {
        Ok(h2) => h2,
        Err(h2) => {
            proof {
                // the matching tag is never refused
                assert(false);
            }
            h2
        },
    };
    proof {
        assert(store@ == wrapped);
    }
    h
}

} // verus!
