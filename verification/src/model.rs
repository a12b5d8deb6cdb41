//! The mathematical model of the store: the byte layout of the append-only
//! log and the key-value mapping that a log denotes.
//!
//! A record is one `(key, value)` pair. Its bytes are the codec's encoding of
//! the key followed by the codec's encoding of the value, and the log is the
//! concatenation of all records in write order. The codec encodes a byte
//! string as its length in eight little-endian bytes followed by the bytes
//! themselves, so every encoding is self-delimiting and a recovery scan can
//! detect truncation by comparing the declared length against the bytes that
//! are actually there.

use vstd::bytes::{lemma_auto_spec_u64_to_from_le_bytes, spec_u64_from_le_bytes, spec_u64_to_le_bytes};
use vstd::prelude::*;

verus! {

/// The codec's encoding of a byte string: its length as eight little-endian
/// bytes, followed by the bytes themselves.
pub open spec fn enc(v: Seq<u8>) -> Seq<u8>
    recommends
        v.len() < 0x1_0000_0000_0000_0000,
{
    spec_u64_to_le_bytes(v.len() as u64) + v
}

/// The bytes of one record: the encoded key followed by the encoded value.
pub open spec fn record_bytes(k: Seq<u8>, v: Seq<u8>) -> Seq<u8> {
    enc(k) + enc(v)
}

/// The log that a sequence of records denotes: their bytes, in write order.
pub open spec fn log_of(recs: Seq<(Seq<u8>, Seq<u8>)>) -> Seq<u8>
    decreases recs.len(),
{
    if recs.len() == 0 {
        Seq::empty()
    } else {
        log_of(recs.drop_last()) + record_bytes(recs.last().0, recs.last().1)
    }
}

/// The mapping that a sequence of records denotes: every key maps to the
/// value of its latest record, so the last write wins.
pub open spec fn map_of(recs: Seq<(Seq<u8>, Seq<u8>)>) -> Map<Seq<u8>, Seq<u8>>
    decreases recs.len(),
{
    if recs.len() == 0 {
        Map::empty()
    } else {
        map_of(recs.drop_last()).insert(recs.last().0, recs.last().1)
    }
}

/// The length that an encoding starting at `off` declares in its prefix.
pub open spec fn head_len(log: Seq<u8>, off: int) -> u64
    recommends
        0 <= off,
        off + 8 <= log.len(),
{
    spec_u64_from_le_bytes(log.subrange(off, off + 8))
}

/// Whether one encoded byte string can be decoded from `log` at `off`: the
/// eight-byte length prefix is there, and so are the bytes it declares.
pub open spec fn can_decode_at(log: Seq<u8>, off: int) -> bool {
    &&& 0 <= off
    &&& off + 8 <= log.len()
    &&& off + 8 + head_len(log, off) <= log.len()
}

/// The byte string that decoding `log` at `off` yields.
pub open spec fn decoded_at(log: Seq<u8>, off: int) -> Seq<u8>
    recommends
        can_decode_at(log, off),
{
    log.subrange(off + 8, off + 8 + head_len(log, off))
}

/// An encoding is eight bytes longer than the byte string it encodes.
pub proof fn lemma_enc_len(v: Seq<u8>)
    ensures
        enc(v).len() == 8 + v.len(),
{
    lemma_auto_spec_u64_to_from_le_bytes();
}

/// Appending a record extends the log by exactly that record's bytes.
pub proof fn lemma_log_of_push(recs: Seq<(Seq<u8>, Seq<u8>)>, k: Seq<u8>, v: Seq<u8>)
    ensures
        log_of(recs.push((k, v))) == log_of(recs) + record_bytes(k, v),
{
    let pushed = recs.push((k, v));
    assert(pushed.drop_last() =~= recs);
    assert(pushed.last() == (k, v));
}

/// Appending a record updates the denoted mapping at exactly that key.
pub proof fn lemma_map_of_push(recs: Seq<(Seq<u8>, Seq<u8>)>, k: Seq<u8>, v: Seq<u8>)
    ensures
        map_of(recs.push((k, v))) == map_of(recs).insert(k, v),
{
    let pushed = recs.push((k, v));
    assert(pushed.drop_last() =~= recs);
    assert(pushed.last() == (k, v));
}

/// The log splits at any record boundary: the records before it and the
/// records after it contribute two consecutive stretches of bytes.
pub proof fn lemma_log_of_split(recs: Seq<(Seq<u8>, Seq<u8>)>, j: int)
    requires
        0 <= j <= recs.len(),
    ensures
        log_of(recs) == log_of(recs.take(j)) + log_of(recs.skip(j)),
    decreases recs.len(),
{
    if j == recs.len() {
        assert(recs.take(j) =~= recs);
        assert(recs.skip(j) =~= Seq::empty());
        assert(log_of(recs) =~= log_of(recs.take(j)) + log_of(recs.skip(j)));
    } else {
        let prev = recs.drop_last();
        lemma_log_of_split(prev, j);
        assert(recs.take(j) =~= prev.take(j));
        assert(recs.skip(j).drop_last() =~= prev.skip(j));
        assert(recs.skip(j).last() == recs.last());
        assert(recs.skip(j).len() > 0);
        assert(log_of(recs.skip(j)) == log_of(prev.skip(j)) + record_bytes(
            recs.last().0,
            recs.last().1,
        ));
        assert(log_of(recs) =~= log_of(recs.take(j)) + log_of(recs.skip(j)));
    }
}

/// Every record's key and value fit inside the log that carries them, with
/// the sixteen bytes of their two length prefixes.
pub proof fn lemma_log_of_record_bound(recs: Seq<(Seq<u8>, Seq<u8>)>, i: int)
    requires
        0 <= i < recs.len(),
    ensures
        16 + recs[i].0.len() + recs[i].1.len() <= log_of(recs).len(),
    decreases recs.len(),
{
    lemma_enc_len(recs.last().0);
    lemma_enc_len(recs.last().1);
    if i == recs.len() - 1 {
    } else {
        lemma_log_of_record_bound(recs.drop_last(), i);
        assert(recs.drop_last()[i] == recs[i]);
    }
}

/// Only the empty record sequence denotes the empty log.
pub proof fn lemma_log_of_empty(recs: Seq<(Seq<u8>, Seq<u8>)>)
    requires
        log_of(recs).len() == 0,
    ensures
        recs.len() == 0,
{
    if recs.len() > 0 {
        lemma_log_of_record_bound(recs, recs.len() - 1);
    }
}

/// Bytes that hold an encoding decode back to the byte string it encodes.
pub proof fn lemma_decode_of_enc(log: Seq<u8>, off: int, w: Seq<u8>)
    requires
        0 <= off,
        w.len() < 0x1_0000_0000_0000_0000,
        off + 8 + w.len() <= log.len(),
        log.subrange(off, off + 8 + w.len()) == enc(w),
    ensures
        can_decode_at(log, off),
        head_len(log, off) == w.len() as u64,
        decoded_at(log, off) == w,
{
    lemma_auto_spec_u64_to_from_le_bytes();
    let ebytes = enc(w);
    assert forall|j: int| 0 <= j < 8 + w.len() implies log[off + j] == #[trigger] ebytes[j] by {
        assert(log.subrange(off, off + 8 + w.len())[j] == ebytes[j]);
    }
    assert(log.subrange(off, off + 8) =~= ebytes.subrange(0, 8));
    assert(ebytes.subrange(0, 8) =~= spec_u64_to_le_bytes(w.len() as u64));
    assert(head_len(log, off) == w.len() as u64);
    assert(can_decode_at(log, off));
    assert(decoded_at(log, off).len() == w.len());
    assert forall|x: int| 0 <= x < w.len() implies decoded_at(log, off)[x] == w[x] by {
        assert(log[off + 8 + x] == ebytes[8 + x]);
        assert(ebytes[8 + x] == w[x]);
    }
    assert(decoded_at(log, off) =~= w);
}

/// Decoding reads back exactly one encoding: the bytes between the offset
/// and the end of the decoded byte string are that byte string's encoding.
pub proof fn lemma_enc_of_decode(log: Seq<u8>, off: int)
    requires
        can_decode_at(log, off),
    ensures
        decoded_at(log, off).len() == head_len(log, off),
        log.subrange(off, off + 8 + decoded_at(log, off).len()) == enc(decoded_at(log, off)),
{
    lemma_auto_spec_u64_to_from_le_bytes();
    let w = decoded_at(log, off);
    let s = log.subrange(off, off + 8);
    assert(s.len() == 8);
    assert(spec_u64_to_le_bytes(spec_u64_from_le_bytes(s)) == s);
    assert(w.len() as u64 == head_len(log, off));
    assert forall|x: int| 0 <= x < 8 + w.len() implies log.subrange(
        off,
        off + 8 + w.len(),
    )[x] == enc(w)[x] by {
        if x < 8 {
            assert(enc(w)[x] == spec_u64_to_le_bytes(w.len() as u64)[x]);
            assert(s[x] == log[off + x]);
        } else {
            assert(enc(w)[x] == w[x - 8]);
            assert(w[x - 8] == log[off + x]);
        }
    }
    assert(log.subrange(off, off + 8 + w.len()) =~= enc(w));
}

/// At each record boundary of a well-formed log, the next key and the next
/// value decode to exactly what that record holds.
pub proof fn lemma_record_boundary(log: Seq<u8>, recs: Seq<(Seq<u8>, Seq<u8>)>, j: int)
    requires
        log == log_of(recs),
        log.len() <= usize::MAX as int,
        0 <= j < recs.len(),
    ensures
        ({
            let off = log_of(recs.take(j)).len() as int;
            let k = recs[j].0;
            let v = recs[j].1;
            &&& off + 16 + k.len() + v.len() <= log.len()
            &&& can_decode_at(log, off)
            &&& decoded_at(log, off) == k
            &&& can_decode_at(log, off + 8 + k.len())
            &&& decoded_at(log, off + 8 + k.len()) == v
            &&& log_of(recs.take(j + 1)).len() == off + 16 + k.len() + v.len()
        }),
{
    let off = log_of(recs.take(j)).len() as int;
    let k = recs[j].0;
    let v = recs[j].1;
    lemma_log_of_record_bound(recs, j);
    lemma_enc_len(k);
    lemma_enc_len(v);
    lemma_log_of_split(recs, j + 1);
    assert(recs.take(j + 1) =~= recs.take(j).push((k, v)));
    lemma_log_of_push(recs.take(j), k, v);
    let head = log_of(recs.take(j + 1));
    assert(head == log_of(recs.take(j)) + record_bytes(k, v));
    assert(head.len() == off + 16 + k.len() + v.len());
    assert(head.len() <= log.len());
    assert forall|y: int| 0 <= y < head.len() implies log[y] == head[y] by {
        assert(log[y] == (head + log_of(recs.skip(j + 1)))[y]);
    }
    assert forall|x: int| 0 <= x < 8 + k.len() implies log.subrange(
        off,
        off + 8 + k.len(),
    )[x] == enc(k)[x] by {
        assert(log[off + x] == head[off + x]);
        assert(head[off + x] == record_bytes(k, v)[x]);
        assert(record_bytes(k, v)[x] == enc(k)[x]);
    }
    assert(log.subrange(off, off + 8 + k.len()) =~= enc(k));
    lemma_decode_of_enc(log, off, k);
    let voff = off + 8 + k.len();
    assert forall|x: int| 0 <= x < 8 + v.len() implies log.subrange(
        voff,
        voff + 8 + v.len(),
    )[x] == enc(v)[x] by {
        assert(log[voff + x] == head[voff + x]);
        assert(head[voff + x] == record_bytes(k, v)[8 + k.len() + x]);
        assert(record_bytes(k, v)[8 + k.len() + x] == enc(v)[x]);
    }
    assert(log.subrange(voff, voff + 8 + v.len()) =~= enc(v));
    lemma_decode_of_enc(log, voff, v);
}

/// A key is in the denoted mapping exactly when some record carries it.
pub proof fn lemma_map_of_dom(recs: Seq<(Seq<u8>, Seq<u8>)>, k: Seq<u8>)
    ensures
        map_of(recs).contains_key(k) <==> exists|i: int| 0 <= i < recs.len() && recs[i].0 == k,
    decreases recs.len(),
{
    if recs.len() > 0 {
        lemma_map_of_dom(recs.drop_last(), k);
        if recs.last().0 == k {
            assert(recs[recs.len() - 1].0 == k);
        } else if map_of(recs).contains_key(k) {
            let i = choose|i: int| 0 <= i < recs.drop_last().len() && recs.drop_last()[i].0 == k;
            assert(recs[i].0 == k);
        } else {
            assert forall|i: int| 0 <= i < recs.len() implies recs[i].0 != k by {
                if i < recs.len() - 1 {
                    assert(recs.drop_last()[i] == recs[i]);
                }
            }
        }
    }
}

} // verus!
