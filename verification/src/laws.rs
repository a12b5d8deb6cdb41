//! The store's laws, proved once and for all over the model. Each one
//! composes with the contracts of `create`, `put` and `get`, whose views and
//! record sequences these statements speak of.
//!
//! Two further laws live directly in the `ensures` of `LogKv::create`: a
//! storage equal to the log of any record sequence reopens to exactly those
//! records (so reopening a store's own bytes recovers its mapping), and a
//! zero-length storage opens to the empty mapping.

use crate::model::{
    enc, lemma_enc_len, lemma_log_of_record_bound, lemma_log_of_split, lemma_map_of_dom,
    lemma_map_of_push, log_of, map_of, record_bytes,
};
use vstd::bytes::{lemma_auto_spec_u64_to_from_le_bytes, spec_u64_from_le_bytes, spec_u64_to_le_bytes};
use vstd::prelude::*;

verus! {

/// A key that no record carries is absent from the denoted mapping, so
/// `get` of a key returns nothing before any `put` of that key.
pub proof fn lemma_fresh_key_absent(recs: Seq<(Seq<u8>, Seq<u8>)>, k: Seq<u8>)
    requires
        forall|i: int| 0 <= i < recs.len() ==> (#[trigger] recs[i]).0 != k,
    ensures
        !map_of(recs).contains_key(k),
{
    lemma_map_of_dom(recs, k);
}

/// After a put of `(k, v)`, the denoted mapping holds exactly `v` at `k`.
pub proof fn lemma_put_then_get(recs: Seq<(Seq<u8>, Seq<u8>)>, k: Seq<u8>, v: Seq<u8>)
    ensures
        map_of(recs.push((k, v))).contains_key(k),
        map_of(recs.push((k, v)))[k] == v,
{
    lemma_map_of_push(recs, k, v);
}

/// Last write wins: after two puts of the same key, the denoted mapping
/// holds the second value, never the first.
pub proof fn lemma_last_write_wins(recs: Seq<(Seq<u8>, Seq<u8>)>, k: Seq<u8>, v1: Seq<u8>, v2: Seq<u8>)
    ensures
        map_of(recs.push((k, v1)).push((k, v2))).contains_key(k),
        map_of(recs.push((k, v1)).push((k, v2)))[k] == v2,
{
    lemma_map_of_push(recs, k, v1);
    lemma_map_of_push(recs.push((k, v1)), k, v2);
}

/// Puts of two distinct keys land on their own keys in either order: the
/// denoted mapping holds each key's own value, however the two interleave.
pub proof fn lemma_interleaving_independence(
    recs: Seq<(Seq<u8>, Seq<u8>)>,
    a: Seq<u8>,
    x: Seq<u8>,
    b: Seq<u8>,
    y: Seq<u8>,
)
    requires
        a != b,
    ensures
        map_of(recs.push((a, x)).push((b, y))).contains_key(a),
        map_of(recs.push((a, x)).push((b, y)))[a] == x,
        map_of(recs.push((a, x)).push((b, y))).contains_key(b),
        map_of(recs.push((a, x)).push((b, y)))[b] == y,
        map_of(recs.push((b, y)).push((a, x))).contains_key(a),
        map_of(recs.push((b, y)).push((a, x)))[a] == x,
        map_of(recs.push((b, y)).push((a, x))).contains_key(b),
        map_of(recs.push((b, y)).push((a, x)))[b] == y,
{
    lemma_map_of_push(recs, a, x);
    lemma_map_of_push(recs.push((a, x)), b, y);
    lemma_map_of_push(recs, b, y);
    lemma_map_of_push(recs.push((b, y)), a, x);
}

/// A log holding one fully written key and no paired value bytes is not the
/// log of any record sequence, so opening such a storage must fail.
pub proof fn lemma_dangling_key_rejected(k: Seq<u8>)
    requires
        k.len() < 0x1_0000_0000_0000_0000,
    ensures
        forall|recs: Seq<(Seq<u8>, Seq<u8>)>| log_of(recs) != enc(k),
{
    lemma_enc_len(k);
    lemma_auto_spec_u64_to_from_le_bytes();
    assert forall|recs: Seq<(Seq<u8>, Seq<u8>)>| log_of(recs) != enc(k) by {
        if log_of(recs) == enc(k) {
            if recs.len() == 0 {
                assert(log_of(recs).len() == 0);
            } else {
                let k0 = recs[0].0;
                let v0 = recs[0].1;
                lemma_log_of_record_bound(recs, 0);
                lemma_enc_len(k0);
                lemma_enc_len(v0);
                lemma_log_of_split(recs, 1);
                assert(recs.take(1).len() == 1);
                assert(recs.take(1).drop_last() =~= Seq::<(Seq<u8>, Seq<u8>)>::empty());
                assert(recs.take(1).last() == recs[0]);
                assert(log_of(recs.take(1)) == log_of(recs.take(1).drop_last())
                    + record_bytes(recs.take(1).last().0, recs.take(1).last().1));
                assert(log_of(recs.take(1).drop_last()) == Seq::<u8>::empty());
                assert(log_of(recs.take(1)) =~= record_bytes(k0, v0));
                let s0 = spec_u64_to_le_bytes(k0.len() as u64);
                let s1 = spec_u64_to_le_bytes(k.len() as u64);
                assert forall|i: int| 0 <= i < 8 implies s0[i] == s1[i] by {
                    assert(log_of(recs)[i] == (log_of(recs.take(1)) + log_of(
                        recs.skip(1),
                    ))[i]);
                    assert(log_of(recs.take(1))[i] == record_bytes(k0, v0)[i]);
                    assert(record_bytes(k0, v0)[i] == enc(k0)[i]);
                    assert(enc(k0)[i] == s0[i]);
                    assert(enc(k)[i] == s1[i]);
                }
                assert(s0 =~= s1);
                assert(spec_u64_from_le_bytes(s0) == spec_u64_from_le_bytes(s1));
                assert(k0.len() as u64 == k.len() as u64);
                assert(k0.len() == k.len());
                assert(16 + k0.len() + v0.len() <= 8 + k.len());
            }
            assert(false);
        }
    }
}

} // verus!
