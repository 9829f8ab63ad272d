//! A simple asset kind based on tagged JSON documents.
//!
//! A tagged document is a JSON object of the form
//! `{"type": "<name>", "data": <payload>}`: the `type` field names the
//! concrete asset kind, and `data` carries its payload. The
//! [`TaggedJsonAssetCreationHandler`] knows a table of kind names, each with
//! the runtime type tag its assets are stored under, and turns such a
//! document into an asset value holding the payload's own JSON bytes.

use crate::handle::{AssetStore, AssetValue};
use crate::AssetCreationHandler;
use vstd::prelude::*;

verus! {

#[verifier::external_type_specification]
#[verifier::external_body]
pub struct ExJsonValue(serde_json::Value);

/// Whether these bytes form one well-formed JSON document; parsing is a
/// function of the bytes alone.
pub uninterp spec fn json_parse_ok(bytes: Seq<u8>) -> bool;

/// Relies on serde_json::from_slice::<serde_json::Value>, which parses the
/// bytes as one JSON document and fails exactly on malformed input.
#[verifier::external_body]
fn parse_json(bytes: &Vec<u8>) -> (r: Option<serde_json::Value>)
    ensures
        r is Some <==> json_parse_ok(bytes@),
{
    serde_json::from_slice(bytes.as_slice()).ok()
}

/// Relies on serde_json::Value::get, which looks a key up when the value is
/// an object and returns nothing otherwise.
#[verifier::external_body]
fn json_get<'a>(v: &'a serde_json::Value, key: &str) -> (r: Option<&'a serde_json::Value>) {
    v.get(key)
}

/// Relies on serde_json::Value::as_str, which returns the text a JSON string
/// value holds and nothing for the other kinds of value.
#[verifier::external_body]
fn json_as_string(v: &serde_json::Value) -> (r: Option<String>) {
    match v.as_str() {
        Some(s) => Some(s.to_string()),
        None => None,
    }
}

/// Relies on serde_json::to_vec, which serializes a JSON value back to
/// bytes.
#[verifier::external_body]
fn json_to_bytes(v: &serde_json::Value) -> (r: Option<Vec<u8>>) {
    match serde_json::to_vec(v) {
        Ok(b) => Some(b),
        Err(_) => None,
    }
}

/// A TaggedJsonAsset is an asset kind that tagged JSON documents can carry:
/// it knows the runtime type tag its values are stored under, and is given a
/// chance to run setup after a value of it is built.
pub trait TaggedJsonAsset {
    /// The runtime type tag values of this kind are stored under.
    fn type_tag(&self) -> u64;

    /// Hook run once a value of this kind has been created.
    fn on_create(&mut self);
}

/// The registered kind names with their runtime type tags, in registration
/// order.
pub open spec fn kind_find(rs: Seq<(Seq<char>, u64)>, name: Seq<char>) -> Option<u64>
    decreases rs.len(),
{
    if rs.len() == 0 {
        None
    } else if rs.last().0 == name {
        Some(rs.last().1)
    } else {
        kind_find(rs.drop_last(), name)
    }
}

/// An AssetCreationHandler that builds assets out of tagged JSON documents:
/// a document is accepted when it parses, carries a registered kind name
/// under `"type"`, and has a `"data"` payload; the asset's bytes are the
/// payload's own JSON text and its runtime tag is the registered one.
pub struct TaggedJsonAssetCreationHandler {
    kinds: Vec<(String, u64)>,
}

impl TaggedJsonAssetCreationHandler {
    /// The registered kind names and their runtime type tags.
    pub closed spec fn kinds(&self) -> Seq<(Seq<char>, u64)> {
        self.kinds@.map_values(|e: (String, u64)| (e.0@, e.1))
    }

    /// A handler that knows no asset kinds yet.
    pub fn new() -> (r: Self)
        ensures
            r.kinds() =~= Seq::<(Seq<char>, u64)>::empty(),
    {
        TaggedJsonAssetCreationHandler { kinds: Vec::new() }
    }

    /// Returns a version of this handler that also accepts documents whose
    /// `"type"` field is `name`, storing their assets under `type_tag`.
    pub fn with_kind(self, name: &str, type_tag: u64) -> (r: Self)
        ensures
            r.kinds() == self.kinds().push((name@, type_tag)),
    {
        let mut me = self;
        me.kinds.push((name.to_owned(), type_tag));
        proof {
            assert(me.kinds() =~= self.kinds().push((name@, type_tag)));
        }
        me
    }

    /// Look a kind name up in the registration table, preferring the latest
    /// registration.
    #[verifier::loop_isolation(false)]
    fn lookup(&self, name: &String) -> (r: Option<u64>)
        ensures
            r == kind_find(self.kinds(), name@),
    {
        let n = self.kinds.len();
        let mut i: usize = n;
        proof {
            assert(self.kinds().take(n as int) =~= self.kinds());
        }
        while i > 0
            invariant
                i <= n,
                n == self.kinds@.len(),
                kind_find(self.kinds(), name@) == kind_find(
                    self.kinds().take(i as int),
                    name@,
                ),
            decreases i,
        {
            proof {
                assert(self.kinds().take(i as int).last() == self.kinds()[i - 1]);
                assert(self.kinds().take(i as int).drop_last() =~= self.kinds().take(i - 1));
            }
            if self.kinds[i - 1].0.eq(name) {
                return Some(self.kinds[i - 1].1);
            }
            i = i - 1;
        }
        proof {
            assert(self.kinds().take(0) =~= Seq::<(Seq<char>, u64)>::empty());
        }
        None
    }
}

impl AssetCreationHandler for TaggedJsonAssetCreationHandler {
    /// Accept one tagged JSON document: it must parse, its `"type"` must be
    /// a registered kind name, and its `"data"` payload becomes the asset's
    /// bytes. The produced asset references no other asset.
    fn create_asset(&mut self, store: &AssetStore, identifier: &str, bytes: &Vec<u8>) -> (r:
        Option<AssetValue>)
        ensures
            r is Some ==> json_parse_ok(bytes@),
            r matches Some(v) ==> v.refs@.len() == 0 && (exists|k: int|
                0 <= k < old(self).kinds().len() && (#[trigger] old(self).kinds()[k]).1
                    == v.type_tag),
    {
        let doc = match parse_json(bytes) {
            Some(d) => d,
            None => {
                return None;
            },
        };
        let tyv = match json_get(&doc, "type") {
            Some(t) => t,
            None => {
                return None;
            },
        };
        let tyname = match json_as_string(tyv) {
            Some(s) => s,
            None => {
                return None;
            },
        };
        let tag = match self.lookup(&tyname) {
            Some(t) => t,
            None => {
                return None;
            },
        };
        proof {
            lemma_kind_find_member(self.kinds(), tyname@);
        }
        let datav = match json_get(&doc, "data") {
            Some(d) => d,
            None => {
                return None;
            },
        };
        let data = match json_to_bytes(datav) {
            Some(b) => b,
            None => {
                return None;
            },
        };
        let value = AssetValue { type_tag: tag, bytes: data, refs: Vec::new() };
        proof {
            store.counts_bounded();
            assert forall|j: int| 0 <= j < store@.len() implies (#[trigger] store@[j].count)
                + crate::handle::occ(value@.refs, j) <= u64::MAX by {
                assert(crate::handle::occ(value@.refs, j) == 0);
            }
        }
        Some(value)
    }
}

/// A found kind name was registered with the returned tag.
proof fn lemma_kind_find_member(rs: Seq<(Seq<char>, u64)>, name: Seq<char>)
    requires
        kind_find(rs, name) is Some,
    ensures
        exists|k: int|
            0 <= k < rs.len() && (#[trigger] rs[k]).1 == kind_find(rs, name).unwrap(),
    decreases rs.len(),
{
    if rs.len() > 0 {
        if rs.last().0 == name {
            assert(rs[rs.len() - 1].1 == kind_find(rs, name).unwrap());
        } else {
            lemma_kind_find_member(rs.drop_last(), name);
            let k = choose|k: int|
                0 <= k < rs.drop_last().len() && (#[trigger] rs.drop_last()[k]).1 == kind_find(
                    rs.drop_last(),
                    name,
                ).unwrap();
            assert(rs[k].1 == kind_find(rs, name).unwrap());
        }
    }
}

} // verus!
