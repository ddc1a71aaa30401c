//! `SopdRaw`: the distribution of one day or one block as it is stored, a map
//! from a price in cents to the sats seen at that price, and its codec.
use vstd::prelude::*;

use std::collections::BTreeMap;

use crate::codec::{
    compress_u32, compress_u64, decompress_u32, decompress_u64, pco_decompressed_u32,
    pco_decompressed_u64,
};
use crate::error::Error;
use crate::format::{
    declared_count, decodes, frame, frame_fits, header_len, key_space, keys_blob,
    law_frame_roundtrip, lemma_listing_unique, lemma_sats_sum_prefix_grows, lemma_sorted_keys,
    lemma_zip_prefix_finite, rest_start, sats_sum, sorted_keys, sorted_values, total_sats,
    values_blob, zip_map, zip_prefix,
};
use crate::le_bytes::{lemma_le_bytes_len, u64_from_le, u64_to_le};
use vstd::slice::slice_subrange;
use vstd::std_specs::btree::{increasing_seq, spec_btree_map_iter};
use vstd::std_specs::cmp::OrdSpec;
use vstd::std_specs::iter::IteratorSpec;

verus! {

broadcast use {vstd::std_specs::btree::group_btree_axioms, vstd::laws_cmp::group_laws_cmp};

/// The keys of a list of (price, sats) pairs.
pub open spec fn entry_keys(entries: Seq<(u32, u64)>) -> Seq<u32> {
    entries.map_values(|e: (u32, u64)| e.0)
}

/// The values of a list of (price, sats) pairs.
pub open spec fn entry_values(entries: Seq<(u32, u64)>) -> Seq<u64> {
    entries.map_values(|e: (u32, u64)| e.1)
}

/// Whether `b` frames `count` entries in two blobs that the codec reads back
/// as `keys` and `values`.
pub open spec fn frames_columns(b: Seq<u8>, count: nat, keys: Seq<u32>, values: Seq<u64>) -> bool {
    exists|kb: Seq<u8>, vb: Seq<u8>|
        #![trigger frame(count, kb, vb)]
        b == frame(count, kb, vb) && pco_decompressed_u32(kb) == Some(keys) && pco_decompressed_u64(
            vb,
        ) == Some(values)
}

/// Why `data` was refused, as the error `e` says: too short for its header
/// or its blobs, a blob the codec does not read, or a wrong entry count.
pub open spec fn refusal_explained(data: Seq<u8>, e: Error) -> bool {
    match e {
        Error::DataTooShort { len, need } => {
            &&& !frame_fits(data)
            &&& len == data.len()
            &&& need == if data.len() < header_len() {
                header_len()
            } else {
                rest_start(data)
            }
        },
        Error::Compression(_) => {
            &&& frame_fits(data)
            &&& (pco_decompressed_u32(keys_blob(data)) is None || pco_decompressed_u64(
                values_blob(data),
            ) is None)
        },
        Error::EntryCountMismatch { declared, found } => {
            &&& frame_fits(data)
            &&& pco_decompressed_u32(keys_blob(data)) is Some
            &&& pco_decompressed_u64(values_blob(data)) is Some
            &&& declared == declared_count(data)
            &&& found == zip_map(
                pco_decompressed_u32(keys_blob(data)).unwrap(),
                pco_decompressed_u64(values_blob(data)).unwrap(),
            ).len()
            &&& found != declared
        },
    }
}

/// The distribution of one day or one block as stored: price in cents
/// (compact, `u32`) to sats.
#[derive(Debug, Clone)]
pub struct SopdRaw {
    pub map: BTreeMap<u32, u64>,
}

impl View for SopdRaw {
    type V = Map<u32, u64>;

    open spec fn view(&self) -> Map<u32, u64> {
        self.map@
    }
}

impl Default for SopdRaw {
    fn default() -> (r: Self)
        ensures
            r@ == Map::<u32, u64>::empty(),
    {
        SopdRaw { map: BTreeMap::new() }
    }
}


/// Walking a `BTreeMap` visits its entries in the sorted listing's order.
pub(crate) proof fn lemma_iteration_is_sorted_listing(map: &BTreeMap<u32, u64>)
    requires
        increasing_seq(
            spec_btree_map_iter(map).remaining().map_values(|kv: (&u32, &u64)| *kv.0),
        ),
    ensures
        spec_btree_map_iter(map).remaining().map_values(|kv: (&u32, &u64)| *kv.0) == sorted_keys(
            map@,
        ),
        spec_btree_map_iter(map).remaining().map_values(|kv: (&u32, &u64)| *kv.1)
            == sorted_values(map@),
{
    let m = map@;
    let t = spec_btree_map_iter(map).remaining();
    let s = t.map_values(|kv: (&u32, &u64)| *kv.0);
    assert(vstd::laws_cmp::obeys_cmp::<u32>());
    lemma_sorted_keys(m);
    assert forall|i: int| 0 <= i < s.len() implies m.dom().contains(#[trigger] s[i]) by {
        assert(m.dom().contains(*t[i].0));
    }
    assert forall|a: int, b: int| 0 <= a < b < s.len() implies s[a] < s[b] by {
        assert(OrdSpec::cmp_spec(&s[a], &s[b]) is Less);
    }
    assert forall|k: u32| m.dom().contains(k) implies s.contains(k) by {
        assert(t.contains((&k, &m[k])));
        let i = choose|i: int| 0 <= i < t.len() && t[i] == (&k, &m[k]);
        assert(s[i] == k);
    }
    let j = lemma_listing_unique(m, s, key_space());
    assert(s.take(j) =~= s);
    assert(t.map_values(|kv: (&u32, &u64)| *kv.1) =~= sorted_values(m)) by {
        assert forall|i: int| 0 <= i < t.len() implies m[*t[i].0] == *t[i].1 by {}
    }
}

impl SopdRaw {
    /// All sats of the distribution, or `None` where the sum does not fit in
    /// a `u64`.
    pub fn total_sats(&self) -> (r: Option<u64>)
        ensures
            r == if total_sats(self@) <= u64::MAX {
                Some(total_sats(self@) as u64)
            } else {
                None::<u64>
            },
    {
        let ghost m = self@;
        let ghost ks = sorted_keys(m);
        let mut total: u64 = 0;
        let mut overflow = false;
        // The map's contract on `iter` says in what order a walk visits it.
        let _in_key_order = self.map.iter();
        proof {
            lemma_iteration_is_sorted_listing(&self.map);
            assert(ks.take(0) =~= Seq::<u32>::empty());
        }
        let ghost mut done: int = 0;
        for (k, v) in it: self.map.iter()
            invariant
                done == it.index(),
                it.seq() == spec_btree_map_iter(&self.map).remaining(),
                ks == spec_btree_map_iter(&self.map).remaining().map_values(
                    |kv: (&u32, &u64)| *kv.0,
                ),
                m == self@,
                !overflow ==> total == sats_sum(m, ks.take(done)),
                overflow ==> sats_sum(m, ks.take(done)) > u64::MAX,
        {
            proof {
                assert(ks[done] == *k);
                assert(m[*k] == *v);
                assert(ks.take(done + 1).drop_last() =~= ks.take(done));
                lemma_sats_sum_prefix_grows(m, ks, done);
            }
            if !overflow {
                match total.checked_add(*v) {
                    Some(t) => total = t,
                    None => overflow = true,
                }
            }
            proof {
                done = done + 1;
            }
        }
        proof {
            assert(ks.take(done) =~= ks);
        }
        if overflow {
            None
        } else {
            Some(total)
        }
    }

    /// Pair decoded keys with decoded values (as far as the shorter list
    /// goes; a repeated key keeps its last value) and check the declared
    /// entry count.
    pub fn from_columns(keys: &[u32], values: &[u64], entry_count: u64) -> (r: Result<Self, Error>)
        ensures
            r is Ok <==> zip_map(keys@, values@).len() == entry_count,
            r matches Ok(raw) ==> raw@ == zip_map(keys@, values@),
            r matches Err(e) ==> (match e {
                Error::EntryCountMismatch { declared, found } => declared == entry_count && found
                    == zip_map(keys@, values@).len(),
                _ => false,
            }),
    {
        let n: usize = if keys.len() < values.len() {
            keys.len()
        } else {
            values.len()
        };
        let mut map: BTreeMap<u32, u64> = BTreeMap::new();
        let mut i: usize = 0;
        while i < n
            invariant
                i <= n,
                n <= keys@.len(),
                n <= values@.len(),
                n == if keys@.len() < values@.len() {
                    keys@.len()
                } else {
                    values@.len()
                },
                map@ == zip_prefix(keys@, values@, i as nat),
            decreases n - i,
        {
            map.insert(keys[i], values[i]);
            i = i + 1;
        }
        proof {
            lemma_zip_prefix_finite(keys@, values@, n as nat);
        }
        if map.len() as u64 != entry_count {
            return Err(Error::EntryCountMismatch { declared: entry_count, found: map.len() });
        }
        Ok(SopdRaw { map })
    }

    /// Lay out an encoded distribution: the header (entry count and the two
    /// blob lengths, little-endian), then the keys blob, then the values blob.
    pub fn frame_columns(entry_count: usize, keys_blob: Vec<u8>, values_blob: Vec<u8>) -> (r:
        Vec<u8>)
        ensures
            r@ == frame(entry_count as nat, keys_blob@, values_blob@),
    {
        let mut buffer = u64_to_le(entry_count as u64);
        let mut field = u64_to_le(keys_blob.len() as u64);
        buffer.append(&mut field);
        let mut field = u64_to_le(values_blob.len() as u64);
        buffer.append(&mut field);
        let mut blob = keys_blob;
        buffer.append(&mut blob);
        let mut blob = values_blob;
        buffer.append(&mut blob);
        buffer
    }

    /// Serialize a list of (price, sats) pairs, in the order given (callers
    /// pass them sorted by price): header, compressed keys, compressed values.
    pub fn serialize_iter(entries: &[(u32, u64)]) -> (r: Result<Vec<u8>, Error>)
        ensures
            r is Ok,
            r matches Ok(b) ==> frames_columns(
                b@,
                entries@.len(),
                entry_keys(entries@),
                entry_values(entries@),
            ),
    {
        let mut keys: Vec<u32> = Vec::new();
        let mut values: Vec<u64> = Vec::new();
        let mut i: usize = 0;
        while i < entries.len()
            invariant
                i <= entries@.len(),
                keys@ == entry_keys(entries@.take(i as int)),
                values@ == entry_values(entries@.take(i as int)),
            decreases entries@.len() - i,
        {
            let (k, v) = entries[i];
            proof {
                assert(entries@.take(i + 1) =~= entries@.take(i as int).push((k, v)));
            }
            keys.push(k);
            values.push(v);
            i = i + 1;
        }
        assert(entries@.take(i as int) =~= entries@);
        let compressed_keys = match compress_u32(keys.as_slice()) {
            Ok(b) => b,
            Err(e) => return Err(Error::Compression(e)),
        };
        let compressed_values = match compress_u64(values.as_slice()) {
            Ok(b) => b,
            Err(e) => return Err(Error::Compression(e)),
        };
        let ghost kb = compressed_keys@;
        let ghost vb = compressed_values@;
        let out = Self::frame_columns(keys.len(), compressed_keys, compressed_values);
        proof {
            assert(out@ == frame(entries@.len() as nat, kb, vb));
        }
        Ok(out)
    }

    /// Deserialize a distribution from the start of `data`, returning it with
    /// the bytes that follow it.
    pub fn deserialize_with_rest(data: &[u8]) -> (r: Result<(Self, &[u8]), Error>)
        ensures
            r is Ok <==> decodes(data@) is Some,
            r matches Ok((raw, rest)) ==> raw@ == decodes(data@).unwrap() && rest@
                == data@.subrange(rest_start(data@) as int, data@.len() as int),
            r matches Err(e) ==> refusal_explained(data@, e),
    {
        if data.len() < 24 {
            return Err(Error::DataTooShort { len: data.len(), need: 24 });
        }
        let entry_count = u64_from_le(slice_subrange(data, 0, 8));
        let keys_len = u64_from_le(slice_subrange(data, 8, 16));
        let values_len = u64_from_le(slice_subrange(data, 16, 24));
        let need: u128 = 24 + keys_len as u128 + values_len as u128;
        if (data.len() as u128) < need {
            return Err(Error::DataTooShort { len: data.len(), need });
        }
        let keys_start: usize = 24;
        let values_start: usize = keys_start + keys_len as usize;
        let end: usize = values_start + values_len as usize;
        let keys = match decompress_u32(slice_subrange(data, keys_start, values_start)) {
            Ok(v) => v,
            Err(e) => return Err(Error::Compression(e)),
        };
        let values = match decompress_u64(slice_subrange(data, values_start, end)) {
            Ok(v) => v,
            Err(e) => return Err(Error::Compression(e)),
        };
        let raw = match Self::from_columns(keys.as_slice(), values.as_slice(), entry_count) {
            Ok(raw) => raw,
            Err(e) => return Err(e),
        };
        Ok((raw, slice_subrange(data, end, data.len())))
    }

    /// Deserialize a distribution from the start of `data`, ignoring what
    /// follows it.
    pub fn deserialize(data: &[u8]) -> (r: Result<Self, Error>)
        ensures
            r is Ok <==> decodes(data@) is Some,
            r matches Ok(raw) ==> raw@ == decodes(data@).unwrap(),
            r matches Err(e) ==> refusal_explained(data@, e),
    {
        match Self::deserialize_with_rest(data) {
            Ok((raw, _)) => Ok(raw),
            Err(e) => Err(e),
        }
    }

    /// Serialize the map: its entries in increasing price order, as
    /// `serialize_iter` writes them. What this writes, `deserialize` reads
    /// back as the same map, whatever bytes follow it.
    pub fn serialize(&self) -> (r: Result<Vec<u8>, Error>)
        ensures
            r is Ok,
            r matches Ok(b) ==> {
                &&& frames_columns(b@, self@.len(), sorted_keys(self@), sorted_values(self@))
                &&& forall|rest: Seq<u8>|
                    #![trigger decodes(b@ + rest)]
                    decodes(b@ + rest) == Some(self@) && rest_start(b@ + rest) == b@.len()
            },
    {
        let mut entries: Vec<(u32, u64)> = Vec::new();
        for (k, v) in it: self.map.iter()
            invariant
                entries@ == it.seq().take(it.index()).map_values(|e: (&u32, &u64)| (*e.0, *e.1)),
                it.seq() == spec_btree_map_iter(&self.map).remaining(),
        {
            entries.push((*k, *v));
            proof {
                assert(entries@ =~= it.seq().take(it.index() + 1).map_values(
                    |e: (&u32, &u64)| (*e.0, *e.1),
                ));
            }
        }
        proof {
            let t = spec_btree_map_iter(&self.map).remaining();
            assert(entries@ =~= t.map_values(|e: (&u32, &u64)| (*e.0, *e.1)));
            lemma_iteration_is_sorted_listing(&self.map);
            assert(entry_keys(entries@) =~= t.map_values(|kv: (&u32, &u64)| *kv.0));
            assert(entry_values(entries@) =~= t.map_values(|kv: (&u32, &u64)| *kv.1));
        }
        let r = Self::serialize_iter(entries.as_slice());
        proof {
            if let Ok(b) = &r {
                let (kb, vb) = choose|kb: Seq<u8>, vb: Seq<u8>|
                    #![trigger frame(entries@.len() as nat, kb, vb)]
                    b@ == frame(entries@.len() as nat, kb, vb) && pco_decompressed_u32(kb) == Some(
                        entry_keys(entries@),
                    ) && pco_decompressed_u64(vb) == Some(entry_values(entries@));
                lemma_sorted_keys(self@);
                lemma_le_bytes_len(entries@.len() as nat, 8);
                lemma_le_bytes_len(kb.len(), 8);
                lemma_le_bytes_len(vb.len(), 8);
                assert(b@.len() == 24 + kb.len() + vb.len());
                assert(b@.len() == b.len());
                assert forall|rest: Seq<u8>|
                    #![trigger decodes(b@ + rest)]
                    decodes(b@ + rest) == Some(self@) && rest_start(b@ + rest) == b@.len() by {
                    law_frame_roundtrip(self@, kb, vb, rest);
                }
            }
        }
        r
    }
}

} // verus!
