//! The on-disk distribution format, as mathematics: the sorted listing of a
//! map, the frame layout, and what a byte string decodes to.
//!
//! Layout: three little-endian `u64` header fields (entry count, length of
//! the keys blob, length of the values blob), then the pco-compressed keys
//! (`u32` cents, ascending) and the pco-compressed values (`u64` sats).
use vstd::prelude::*;

use crate::codec::{pco_decompressed_u32, pco_decompressed_u64};
use crate::le_bytes::{le_bytes, le_value, lemma_le_roundtrip, lemma_pow256_8};

verus! {

/// Number of distinct `u32` keys.
pub open spec fn key_space() -> nat {
    0x1_0000_0000
}

/// Length of the fixed header, in bytes.
pub open spec fn header_len() -> nat {
    24
}

/// The keys of `m` that are below `n`, in increasing order.
pub open spec fn keys_below(m: Map<u32, u64>, n: nat) -> Seq<u32>
    decreases n,
{
    if n == 0 {
        Seq::empty()
    } else {
        let prev = keys_below(m, (n - 1) as nat);
        if m.dom().contains((n - 1) as u32) {
            prev.push((n - 1) as u32)
        } else {
            prev
        }
    }
}

/// All keys of `m`, in increasing order.
pub open spec fn sorted_keys(m: Map<u32, u64>) -> Seq<u32> {
    keys_below(m, key_space())
}

/// The values of `m`, in the increasing order of their keys.
pub open spec fn sorted_values(m: Map<u32, u64>) -> Seq<u64> {
    sorted_keys(m).map_values(|k: u32| m[k])
}

/// The map made by inserting the first `n` pairs of `keys` and `values` in
/// turn (a later pair with an equal key replaces an earlier one).
pub open spec fn zip_prefix(keys: Seq<u32>, values: Seq<u64>, n: nat) -> Map<u32, u64>
    decreases n,
{
    if n == 0 {
        Map::empty()
    } else {
        zip_prefix(keys, values, (n - 1) as nat).insert(keys[n - 1], values[n - 1])
    }
}

/// The map made by pairing `keys` with `values`, as far as the shorter goes.
pub open spec fn zip_map(keys: Seq<u32>, values: Seq<u64>) -> Map<u32, u64> {
    zip_prefix(keys, values, if keys.len() < values.len() { keys.len() } else { values.len() })
}

/// The 24-byte header.
pub open spec fn header(count: nat, keys_len: nat, values_len: nat) -> Seq<u8> {
    le_bytes(count, 8) + le_bytes(keys_len, 8) + le_bytes(values_len, 8)
}

/// A whole encoded distribution: header, keys blob, values blob.
pub open spec fn frame(count: nat, keys_blob: Seq<u8>, values_blob: Seq<u8>) -> Seq<u8> {
    header(count, keys_blob.len(), values_blob.len()) + keys_blob + values_blob
}

/// The entry count that a header declares.
pub open spec fn declared_count(data: Seq<u8>) -> nat {
    le_value(data.subrange(0, 8))
}

/// The keys blob length that a header declares.
pub open spec fn declared_keys_len(data: Seq<u8>) -> nat {
    le_value(data.subrange(8, 16))
}

/// The values blob length that a header declares.
pub open spec fn declared_values_len(data: Seq<u8>) -> nat {
    le_value(data.subrange(16, 24))
}

/// Where the bytes after the encoded distribution start.
pub open spec fn rest_start(data: Seq<u8>) -> nat {
    header_len() + declared_keys_len(data) + declared_values_len(data)
}

/// Whether `data` holds a whole header and the two blobs it announces.
pub open spec fn frame_fits(data: Seq<u8>) -> bool {
    data.len() >= header_len() && data.len() >= rest_start(data)
}

/// The keys blob of a frame.
pub open spec fn keys_blob(data: Seq<u8>) -> Seq<u8> {
    data.subrange(header_len() as int, (header_len() + declared_keys_len(data)) as int)
}

/// The values blob of a frame.
pub open spec fn values_blob(data: Seq<u8>) -> Seq<u8> {
    data.subrange((header_len() + declared_keys_len(data)) as int, rest_start(data) as int)
}

/// The distribution that `data` starts with, if it is well formed: a frame
/// that fits, two blobs the codec reads, and as many distinct keys as the
/// header declares.
pub open spec fn decodes(data: Seq<u8>) -> Option<Map<u32, u64>> {
    if !frame_fits(data) {
        None
    } else {
        match (pco_decompressed_u32(keys_blob(data)), pco_decompressed_u64(values_blob(data))) {
            (Some(ks), Some(vs)) => {
                let m = zip_map(ks, vs);
                if m.len() == declared_count(data) {
                    Some(m)
                } else {
                    None
                }
            },
            _ => None,
        }
    }
}

/// The sats of the keys `ks` of `m`, summed.
pub open spec fn sats_sum(m: Map<u32, u64>, ks: Seq<u32>) -> nat
    decreases ks.len(),
{
    if ks.len() == 0 {
        0
    } else {
        sats_sum(m, ks.drop_last()) + m[ks.last()] as nat
    }
}

/// All sats of `m`.
pub open spec fn total_sats(m: Map<u32, u64>) -> nat {
    sats_sum(m, sorted_keys(m))
}

/// Summing over one more key adds that key's sats.
pub proof fn lemma_sats_sum_prefix_grows(m: Map<u32, u64>, ks: Seq<u32>, i: int)
    requires
        0 <= i < ks.len(),
    ensures
        sats_sum(m, ks.take(i + 1)) == sats_sum(m, ks.take(i)) + m[ks[i]],
{
    assert(ks.take(i + 1).drop_last() =~= ks.take(i));
}

/// A map built by inserting finitely many pairs is finite.
pub proof fn lemma_zip_prefix_finite(keys: Seq<u32>, values: Seq<u64>, n: nat)
    ensures
        zip_prefix(keys, values, n).dom().finite(),
    decreases n,
{
    if n > 0 {
        lemma_zip_prefix_finite(keys, values, (n - 1) as nat);
    }
}

/// `keys_below` lists, in strictly increasing order, exactly the keys of `m`
/// below `n`.
pub proof fn lemma_keys_below(m: Map<u32, u64>, n: nat)
    requires
        n <= key_space(),
    ensures
        forall|i: int|
            0 <= i < keys_below(m, n).len() ==> (keys_below(m, n)[i] as nat) < n
                && m.dom().contains(#[trigger] keys_below(m, n)[i]),
        forall|i: int, j: int|
            0 <= i < j < keys_below(m, n).len() ==> keys_below(m, n)[i] < keys_below(m, n)[j],
        forall|k: u32| (k as nat) < n && m.dom().contains(k) ==> keys_below(m, n).contains(k),
        keys_below(m, n).len() <= n,
    decreases n,
{
    if n > 0 {
        lemma_keys_below(m, (n - 1) as nat);
        let prev = keys_below(m, (n - 1) as nat);
        let cur = keys_below(m, n);
        assert forall|k: u32| (k as nat) < n && m.dom().contains(k) implies cur.contains(k) by {
            if (k as nat) < n - 1 {
                let i = choose|i: int| 0 <= i < prev.len() && prev[i] == k;
                assert(cur[i] == k);
            } else {
                assert(k == (n - 1) as u32);
                assert(cur[cur.len() - 1] == k);
            }
        }
    }
}

/// The sorted listing of `m` holds each key of `m` once: `m` is finite and has
/// as many entries as the listing.
pub proof fn lemma_sorted_keys(m: Map<u32, u64>)
    ensures
        sorted_keys(m).to_set() == m.dom(),
        sorted_keys(m).no_duplicates(),
        m.dom().finite(),
        sorted_keys(m).len() == m.len(),
{
    let ks = sorted_keys(m);
    lemma_keys_below(m, key_space());
    assert(ks.to_set() =~= m.dom()) by {
        assert forall|k: u32| m.dom().contains(k) implies ks.to_set().contains(k) by {
            assert((k as nat) < key_space());
        }
    }
    assert(ks.no_duplicates()) by {
        assert forall|i: int, j: int| 0 <= i < ks.len() && 0 <= j < ks.len() && i != j implies ks[i]
            != ks[j] by {
            if i < j {
                assert(ks[i] < ks[j]);
            } else {
                assert(ks[j] < ks[i]);
            }
        }
    }
    vstd::seq_lib::seq_to_set_is_finite(ks);
    ks.unique_seq_to_set();
}

/// Pairing a list of keys of `m` with their values gives `m` restricted to
/// the first `j` keys.
proof fn lemma_zip_listing(m: Map<u32, u64>, s: Seq<u32>, j: nat)
    requires
        j <= s.len(),
        forall|i: int| 0 <= i < s.len() ==> m.dom().contains(#[trigger] s[i]),
    ensures
        zip_prefix(s, s.map_values(|k: u32| m[k]), j) =~= Map::new(
            |k: u32| s.take(j as int).contains(k),
            |k: u32| m[k],
        ),
    decreases j,
{
    if j > 0 {
        lemma_zip_listing(m, s, (j - 1) as nat);
        let a = s.take(j as int);
        let b = s.take(j - 1);
        assert forall|k: u32| a.contains(k) <==> (b.contains(k) || k == s[j - 1]) by {
            if a.contains(k) {
                let i = choose|i: int| 0 <= i < a.len() && a[i] == k;
                if i < j - 1 {
                    assert(b[i] == k);
                }
            }
            if b.contains(k) {
                let i = choose|i: int| 0 <= i < b.len() && b[i] == k;
                assert(a[i] == k);
            }
            if k == s[j - 1] {
                assert(a[j - 1] == k);
            }
        }
    }
}

/// Pairing the sorted keys of `m` with the sorted values gives `m` back.
pub proof fn lemma_zip_sorted(m: Map<u32, u64>)
    ensures
        zip_map(sorted_keys(m), sorted_values(m)) == m,
{
    let ks = sorted_keys(m);
    lemma_sorted_keys(m);
    lemma_keys_below(m, key_space());
    lemma_zip_listing(m, ks, ks.len());
    assert(ks.take(ks.len() as int) =~= ks);
    assert forall|k: u32| ks.contains(k) <==> m.dom().contains(k) by {
        assert(ks.to_set().contains(k) <==> ks.contains(k));
    }
    assert(zip_map(ks, sorted_values(m)) =~= m);
}

/// A strictly increasing list of keys of `m` that holds every key of `m` is
/// the sorted listing: its first `j` entries are the keys below `n`, and the
/// later ones are all at least `n`.
pub proof fn lemma_listing_unique(m: Map<u32, u64>, s: Seq<u32>, n: nat) -> (j: int)
    requires
        n <= key_space(),
        forall|a: int, b: int| 0 <= a < b < s.len() ==> s[a] < s[b],
        forall|i: int| 0 <= i < s.len() ==> m.dom().contains(#[trigger] s[i]),
        forall|k: u32| m.dom().contains(k) ==> s.contains(k),
    ensures
        0 <= j <= s.len(),
        s.take(j) == keys_below(m, n),
        forall|i: int| j <= i < s.len() ==> (s[i] as nat) >= n,
    decreases n,
{
    if n == 0 {
        assert(s.take(0) =~= keys_below(m, 0));
        0
    } else {
        let j0 = lemma_listing_unique(m, s, (n - 1) as nat);
        let key = (n - 1) as u32;
        if m.dom().contains(key) {
            assert(s.contains(key));
            let i = choose|i: int| 0 <= i < s.len() && s[i] == key;
            if i < j0 {
                lemma_keys_below(m, (n - 1) as nat);
                assert(s.take(j0)[i] == key);
                assert(keys_below(m, (n - 1) as nat)[i] == key);
                assert(false);
            }
            if i > j0 {
                assert(s[j0] < s[i]);
            }
            assert(i == j0);
            assert(s.take(j0 + 1) =~= s.take(j0).push(key));
            assert forall|t: int| j0 + 1 <= t < s.len() implies (s[t] as nat) >= n by {
                assert(s[j0] < s[t]);
            }
            j0 + 1
        } else {
            assert forall|t: int| j0 <= t < s.len() implies (s[t] as nat) >= n by {
                assert(s[t] != key);
            }
            j0
        }
    }
}

/// Reading back a frame that holds the sorted listing of `m`, in blobs that
/// the codec reads back as that listing, gives `m`; the bytes that follow the
/// frame are left over, untouched.
pub proof fn law_frame_roundtrip(m: Map<u32, u64>, kb: Seq<u8>, vb: Seq<u8>, rest: Seq<u8>)
    requires
        pco_decompressed_u32(kb) == Some(sorted_keys(m)),
        pco_decompressed_u64(vb) == Some(sorted_values(m)),
        kb.len() < 0x1_0000_0000_0000_0000,
        vb.len() < 0x1_0000_0000_0000_0000,
    ensures
        decodes(frame(m.len(), kb, vb) + rest) == Some(m),
        rest_start(frame(m.len(), kb, vb) + rest) == frame(m.len(), kb, vb).len(),
        (frame(m.len(), kb, vb) + rest).subrange(
            rest_start(frame(m.len(), kb, vb) + rest) as int,
            (frame(m.len(), kb, vb) + rest).len() as int,
        ) == rest,
{
    let f = frame(m.len(), kb, vb);
    let d = f + rest;
    lemma_sorted_keys(m);
    lemma_keys_below(m, key_space());
    lemma_pow256_8();
    lemma_le_roundtrip(m.len(), 8);
    lemma_le_roundtrip(kb.len(), 8);
    lemma_le_roundtrip(vb.len(), 8);
    assert(d.subrange(0, 8) =~= le_bytes(m.len(), 8));
    assert(d.subrange(8, 16) =~= le_bytes(kb.len(), 8));
    assert(d.subrange(16, 24) =~= le_bytes(vb.len(), 8));
    assert(keys_blob(d) =~= kb);
    assert(values_blob(d) =~= vb);
    assert(d.subrange(f.len() as int, d.len() as int) =~= rest);
    lemma_zip_sorted(m);
}

} // verus!
