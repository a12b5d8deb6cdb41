//! The storage engine: an append-only log of encoded records and an
//! in-memory index from each key to the byte offset of its latest value.
//!
//! The engine owns the log as a byte buffer. Opening scans the whole buffer
//! once to rebuild the index; every write appends one record and updates the
//! index; every read consults the index and decodes exactly one value.

use crate::codec::{decode_bytes_at, encode_bytes};
use crate::error::LogKvError;
use crate::model::{
    can_decode_at, decoded_at, enc, head_len, lemma_decode_of_enc, lemma_enc_len,
    lemma_enc_of_decode, lemma_log_of_empty, lemma_log_of_push, lemma_log_of_split,
    lemma_map_of_push, lemma_record_boundary, log_of, map_of, record_bytes,
};
use vstd::prelude::*;

verus! {

/// One entry of the in-memory index: a key, and the byte offset at which the
/// encoding of that key's most recently written value starts.
struct IndexEntry {
    key: Vec<u8>,
    off: u64,
}

/// The entry's key is in the mapping `m`, and the entry points at the
/// encoding of that key's latest value inside `log`.
spec fn entry_ok(log: Seq<u8>, m: Map<Seq<u8>, Seq<u8>>, e: IndexEntry) -> bool {
    &&& m.contains_key(e.key@)
    &&& e.off + 8 + m[e.key@].len() <= log.len()
    &&& log.subrange(e.off as int, e.off + 8 + m[e.key@].len()) == enc(m[e.key@])
}

/// The index is exactly an index of the mapping `m` over `log`: every entry
/// is valid, no key appears twice, and every key of `m` has an entry.
spec fn index_ok(log: Seq<u8>, m: Map<Seq<u8>, Seq<u8>>, ix: Seq<IndexEntry>) -> bool {
    &&& forall|i: int| 0 <= i < ix.len() ==> entry_ok(log, m, #[trigger] ix[i])
    &&& forall|i: int, j: int|
        #![trigger ix[i], ix[j]]
        0 <= i < j < ix.len() ==> ix[i].key@ != ix[j].key@
    &&& forall|k: Seq<u8>| #[trigger]
        m.contains_key(k) ==> exists|i: int| 0 <= i < ix.len() && (#[trigger] ix[i]).key@ == k
}

/// A key-value store backed by an append-only log of encoded records, with
/// an in-memory index that always reflects the latest write for each key.
pub struct LogKv {
    log: Vec<u8>,
    index: Vec<IndexEntry>,
    recs: Ghost<Seq<(Seq<u8>, Seq<u8>)>>,
}

impl View for LogKv {
    type V = Map<Seq<u8>, Seq<u8>>;

    /// Abstractly, the store is the mapping its records denote.
    open spec fn view(&self) -> Map<Seq<u8>, Seq<u8>> {
        map_of(self.records())
    }
}

impl LogKv {
    /// The records written so far, in write order.
    pub closed spec fn records(self) -> Seq<(Seq<u8>, Seq<u8>)> {
        self.recs@
    }

    /// The engine is well formed: the log holds exactly the bytes of its
    /// records, and the index is an index of the denoted mapping.
    pub closed spec fn wf(self) -> bool {
        &&& self.log@ == log_of(self.recs@)
        &&& index_ok(self.log@, map_of(self.recs@), self.index@)
    }

    /// Opens a store over the given storage bytes. The whole log is scanned
    /// once from offset zero: each decoded key is indexed at the position of
    /// its paired value, whose encoding is decoded and discarded to advance
    /// the scan. The scan stops cleanly only at a record boundary with zero
    /// bytes left; a storage that is not a clean sequence of complete
    /// records fails to open, and in particular a key with no paired value
    /// bytes is a fatal truncation, never a record to skip silently.
    pub fn create(storage: Vec<u8>) -> (r: Result<LogKv, LogKvError>)
        ensures
            r is Ok ==> r->Ok_0.wf() && storage@ == log_of(r->Ok_0.records()),
            forall|recs0: Seq<(Seq<u8>, Seq<u8>)>|
                storage@ == log_of(recs0) ==> r is Ok && r->Ok_0.records() == recs0,
            storage@.len() == 0 ==> r is Ok && r->Ok_0@ == Map::<Seq<u8>, Seq<u8>>::empty(),
            r is Err ==> r->Err_0 is Truncation,
    {
        let log = storage;
        let total: usize = log.len();
        let mut index: Vec<IndexEntry> = Vec::new();
        let ghost mut grecs: Seq<(Seq<u8>, Seq<u8>)> = Seq::empty();
        let mut off: usize = 0;
        proof {
            assert(log_of(grecs) =~= log@.subrange(0, 0));
        }
        while off < total
            invariant
                log@ == storage@,
                total == log@.len(),
                off <= total,
                log_of(grecs) == log@.subrange(0, off as int),
                index_ok(log@, map_of(grecs), index@),
                forall|recs0: Seq<(Seq<u8>, Seq<u8>)>|
                    log@ == log_of(recs0) ==> grecs.len() <= recs0.len() && grecs == recs0.take(
                        grecs.len() as int,
                    ),
            decreases total - off,
        {
            let ghost j = grecs.len() as int;
            let ghost pre = grecs;
            proof {
                assert(log_of(pre).len() == off as int);
                assert forall|recs0: Seq<(Seq<u8>, Seq<u8>)>|
                    log@ == log_of(recs0) implies j < recs0.len() && can_decode_at(
                    log@,
                    off as int,
                ) && decoded_at(log@, off as int) == recs0[j].0 && can_decode_at(
                    log@,
                    off + 8 + recs0[j].0.len(),
                ) && decoded_at(log@, off + 8 + recs0[j].0.len()) == recs0[j].1 && off + 16
                    + recs0[j].0.len() + recs0[j].1.len() <= total as int by {
                    assert(pre == recs0.take(j));
                    if j == recs0.len() {
                        assert(recs0.take(j) =~= recs0);
                        assert(false);
                    }
                    lemma_record_boundary(log@, recs0, j);
                }
            }
            let key = match decode_bytes_at(&log, off) {
                Ok(k) => k,
                Err(m) => {
                    proof {
                        assert forall|recs0: Seq<(Seq<u8>, Seq<u8>)>|
                            log@ != log_of(recs0) by {
                            if log@ == log_of(recs0) {
                                assert(can_decode_at(log@, off as int));
                                assert(false);
                            }
                        }
                    }
                    return Err(LogKvError::Truncation(m));
                },
            };
            proof {
                assert(key@ == decoded_at(log@, off as int));
                assert(key@.len() == head_len(log@, off as int));
                assert(off + 8 + key@.len() <= total);
            }
            let key_end: usize = off + 8 + key.len();
            let value = match decode_bytes_at(&log, key_end) {
                Ok(v) => v,
                Err(m) => {
                    proof {
                        assert forall|recs0: Seq<(Seq<u8>, Seq<u8>)>|
                            log@ != log_of(recs0) by {
                            if log@ == log_of(recs0) {
                                assert(recs0[j].0 == key@);
                                assert(can_decode_at(log@, key_end as int));
                                assert(false);
                            }
                        }
                    }
                    return Err(LogKvError::Truncation(m));
                },
            };
            proof {
                assert(value@ == decoded_at(log@, key_end as int));
                assert(value@.len() == head_len(log@, key_end as int));
                assert(key_end + 8 + value@.len() <= total);
            }
            let ghost kv = key@;
            let ghost vv = value@;
            let ghost m_old = map_of(pre);
            proof {
                grecs = grecs.push((kv, vv));
            }
            let voff: u64 = key_end as u64;
            let ghost pre_index = index@;
            index_upsert(&mut index, key, voff);
            let vlen: usize = value.len();
            let next_off: usize = key_end + 8 + vlen;
            proof {
                lemma_enc_of_decode(log@, off as int);
                lemma_enc_of_decode(log@, key_end as int);
                lemma_enc_len(kv);
                lemma_enc_len(vv);
                lemma_log_of_push(pre, kv, vv);
                lemma_map_of_push(pre, kv, vv);
                let m_new = map_of(grecs);
                assert(m_new == m_old.insert(kv, vv));
                // the scanned prefix now covers the new record's bytes
                assert(log_of(grecs) == log_of(pre) + record_bytes(kv, vv));
                assert(log_of(grecs).len() == next_off as int);
                assert forall|y: int| 0 <= y < next_off implies log@[y] == log_of(grecs)[y] by {
                    if y < off {
                        assert(log@.subrange(0, off as int)[y] == log@[y]);
                        assert(log_of(grecs)[y] == log_of(pre)[y]);
                    } else if y < key_end {
                        assert(log@.subrange(off as int, off + 8 + kv.len())[y - off]
                            == log@[y]);
                        assert(log_of(grecs)[y] == record_bytes(kv, vv)[y - off]);
                        assert(record_bytes(kv, vv)[y - off] == enc(kv)[y - off]);
                    } else {
                        assert(log@.subrange(key_end as int, key_end + 8 + vv.len())[y
                            - key_end] == log@[y]);
                        assert(log_of(grecs)[y] == record_bytes(kv, vv)[y - off]);
                        assert(record_bytes(kv, vv)[y - off] == enc(vv)[y - key_end]);
                    }
                }
                assert(log_of(grecs) =~= log@.subrange(0, next_off as int));
                // the index is an index of the extended mapping
                assert(log@.subrange(voff as int, voff + 8 + vv.len()) == enc(vv));
                assert forall|i: int| 0 <= i < index@.len() implies entry_ok(
                    log@,
                    m_new,
                    #[trigger] index@[i],
                ) by {
                    let e = index@[i];
                    if e.key@ == kv {
                        let w = choose|w: int|
                            0 <= w < index@.len() && (#[trigger] index@[w]).key@ == kv
                                && index@[w].off == voff;
                        assert(w == i || index@[w].key@ != index@[i].key@);
                        assert(e.off == voff);
                    } else {
                        let x = choose|x: int|
                            0 <= x < pre_index.len() && pre_index[x] == index@[i];
                        assert(entry_ok(log@, m_old, e));
                        assert(m_new[e.key@] == m_old[e.key@]);
                    }
                }
                assert forall|k: Seq<u8>| #[trigger] m_new.contains_key(k) implies exists|i: int|
                    0 <= i < index@.len() && (#[trigger] index@[i]).key@ == k by {
                    if k == kv {
                        let w = choose|w: int|
                            0 <= w < index@.len() && (#[trigger] index@[w]).key@ == kv
                                && index@[w].off == voff;
                        assert(index@[w].key@ == k);
                    } else {
                        assert(m_old.contains_key(k));
                        let x = choose|x: int|
                            0 <= x < pre_index.len() && (#[trigger] pre_index[x]).key@ == k;
                        assert(pre_index[x].key@ != kv);
                        let i = choose|i: int|
                            0 <= i < index@.len() && index@[i] == pre_index[x];
                        assert(index@[i].key@ == k);
                    }
                }
                // the scan still aligns with every parse of the whole log
                assert forall|recs0: Seq<(Seq<u8>, Seq<u8>)>|
                    log@ == log_of(recs0) implies grecs.len() <= recs0.len() && grecs
                    == recs0.take(grecs.len() as int) by {
                    assert(recs0[j].0 == kv && recs0[j].1 == vv);
                    assert(recs0.take(j + 1) =~= recs0.take(j).push(recs0[j]));
                    assert(grecs =~= recs0.take(j + 1));
                }
            }
            off = next_off;
        }
        proof {
            assert(log@.subrange(0, off as int) =~= log@);
        }
        let store = LogKv { log, index, recs: Ghost(grecs) };
        proof {
            assert(store.wf());
            assert forall|recs0: Seq<(Seq<u8>, Seq<u8>)>|
                storage@ == log_of(recs0) implies grecs == recs0 by {
                lemma_log_of_split(recs0, grecs.len() as int);
                lemma_log_of_empty(recs0.skip(grecs.len() as int));
                assert(recs0 =~= recs0.take(grecs.len() as int));
            }
            if storage@.len() == 0 {
                assert(log_of(Seq::<(Seq<u8>, Seq<u8>)>::empty()) =~= storage@);
                assert(grecs =~= Seq::<(Seq<u8>, Seq<u8>)>::empty());
                assert(store@ =~= Map::<Seq<u8>, Seq<u8>>::empty());
            }
        }
        Ok(store)
    }

    /// Stores a key-value pair: appends one record to the log and points the
    /// key's index entry at the offset of the value's encoding. Encoding a
    /// byte string cannot fail, so the write always succeeds.
    pub fn put(&mut self, key: Vec<u8>, value: Vec<u8>) -> (r: Result<(), LogKvError>)
        requires
            old(self).wf(),
            log_of(old(self).records()).len() + 16 + key@.len() + value@.len() <= usize::MAX,
        ensures
            r is Ok,
            final(self).wf(),
            final(self).records() == old(self).records().push((key@, value@)),
            final(self)@ == old(self)@.insert(key@, value@),
    {
        let ek = match encode_bytes(&key) {
            Ok(b) => b,
            Err(m) => {
                return Err(LogKvError::EncodeFailure(m));
            },
        };
        let ev = match encode_bytes(&value) {
            Ok(b) => b,
            Err(m) => {
                return Err(LogKvError::EncodeFailure(m));
            },
        };
        proof {
            lemma_enc_len(key@);
            lemma_enc_len(value@);
        }
        self.append_record(key, value, ek, ev);
        Ok(())
    }

    /// The verified write path, once both encodings are on hand: appends the
    /// two encodings and updates the index entry for the key.
    fn append_record(&mut self, key: Vec<u8>, value: Vec<u8>, ek: Vec<u8>, ev: Vec<u8>)
        requires
            old(self).wf(),
            ek@ == enc(key@),
            ev@ == enc(value@),
            log_of(old(self).records()).len() + ek@.len() + ev@.len() <= usize::MAX,
        ensures
            final(self).wf(),
            final(self).records() == old(self).records().push((key@, value@)),
            final(self)@ == old(self)@.insert(key@, value@),
    {
        proof {
            lemma_enc_len(key@);
            lemma_enc_len(value@);
        }
        let ghost old_log = self.log@;
        let ghost old_recs = self.recs@;
        let ghost m_old = map_of(old_recs);
        let ghost kv = key@;
        let ghost vv = value@;
        let mut ek = ek;
        let mut ev = ev;
        let voff: usize = self.log.len() + ek.len();
        self.log.append(&mut ek);
        self.log.append(&mut ev);
        self.recs = Ghost(old_recs.push((kv, vv)));
        proof {
            lemma_log_of_push(old_recs, kv, vv);
            lemma_map_of_push(old_recs, kv, vv);
            assert(self.log@ =~= log_of(self.recs@));
        }
        index_upsert(&mut self.index, key, voff as u64);
        proof {
            let m_new = map_of(self.recs@);
            let log_new = self.log@;
            assert(m_new == m_old.insert(kv, vv));
            assert(log_new.subrange(voff as int, voff + 8 + vv.len()) =~= enc(vv));
            assert forall|i: int| 0 <= i < self.index@.len() implies entry_ok(
                log_new,
                m_new,
                #[trigger] self.index@[i],
            ) by {
                let e = self.index@[i];
                if e.key@ == kv {
                    let w = choose|w: int|
                        0 <= w < self.index@.len() && (#[trigger] self.index@[w]).key@ == kv
                            && self.index@[w].off == voff as u64;
                    assert(w == i || self.index@[w].key@ != self.index@[i].key@);
                    assert(e.off == voff as u64);
                } else {
                    let j = choose|j: int|
                        0 <= j < old(self).index@.len() && old(self).index@[j] == self.index@[i];
                    assert(entry_ok(old_log, m_old, e));
                    assert(m_new[e.key@] == m_old[e.key@]);
                    assert(log_new.subrange(e.off as int, e.off + 8 + m_new[e.key@].len())
                        =~= old_log.subrange(e.off as int, e.off + 8 + m_old[e.key@].len()));
                }
            }
            assert forall|k: Seq<u8>| #[trigger] m_new.contains_key(k) implies exists|i: int|
                0 <= i < self.index@.len() && (#[trigger] self.index@[i]).key@ == k by {
                if k == kv {
                    let w = choose|w: int|
                        0 <= w < self.index@.len() && (#[trigger] self.index@[w]).key@ == kv
                            && self.index@[w].off == voff as u64;
                    assert(self.index@[w].key@ == k);
                } else {
                    assert(m_old.contains_key(k));
                    let j = choose|j: int|
                        0 <= j < old(self).index@.len()
                            && (#[trigger] old(self).index@[j]).key@ == k;
                    assert(old(self).index@[j].key@ != kv);
                    let i = choose|i: int|
                        0 <= i < self.index@.len() && self.index@[i] == old(self).index@[j];
                    assert(self.index@[i].key@ == k);
                }
            }
        }
    }

    /// Retrieves the most recently written value for `key`, or nothing if
    /// the key has never been written.
    pub fn get(&self, key: &Vec<u8>) -> (r: Result<Option<Vec<u8>>, LogKvError>)
        requires
            self.wf(),
        ensures
            r is Ok,
            !self@.contains_key(key@) ==> r->Ok_0 is None,
            self@.contains_key(key@) ==> (r->Ok_0 matches Some(v) && v@ == self@[key@]),
    {
        match find_key(&self.index, key) {
            None => {
                proof {
                    if self@.contains_key(key@) {
                        let i = choose|i: int|
                            0 <= i < self.index@.len() && (#[trigger] self.index@[i]).key@
                                == key@;
                        assert(false);
                    }
                }
                Ok(None)
            },
            Some(i) => {
                let _log_len: usize = self.log.len();
                let off64: u64 = self.index[i].off;
                proof {
                    assert(entry_ok(self.log@, map_of(self.recs@), self.index@[i as int]));
                }
                let off: usize = off64 as usize;
                proof {
                    let mv = self@[key@];
                    lemma_decode_of_enc(self.log@, off as int, mv);
                    assert(decoded_at(self.log@, off as int) == mv);
                }
                match decode_bytes_at(&self.log, off) {
                    Ok(v) => Ok(Some(v)),
                    Err(m) => Err(LogKvError::DecodeFailure(m)),
                }
            },
        }
    }

    /// The bytes of the log, for the caller to persist.
    pub fn bytes(&self) -> (r: &Vec<u8>)
        requires
            self.wf(),
        ensures
            r@ == log_of(self.records()),
    {
        &self.log
    }
}

/// The position of the entry carrying `key`, if the index has one.
fn find_key(ix: &Vec<IndexEntry>, key: &Vec<u8>) -> (r: Option<usize>)
    ensures
        match r {
            Some(i) => i < ix@.len() && ix@[i as int].key@ == key@,
            None => forall|i: int| 0 <= i < ix@.len() ==> (#[trigger] ix@[i]).key@ != key@,
        },
{
    let mut i: usize = 0;
    while i < ix.len()
        invariant
            i <= ix@.len(),
            forall|j: int| 0 <= j < i ==> (#[trigger] ix@[j]).key@ != key@,
        decreases ix@.len() - i,
    {
        if ix[i].key == *key {
            proof {
                assert(ix@[i as int].key@ =~= key@);
            }
            return Some(i);
        }
        proof {
            if ix@[i as int].key@ == key@ {
                assert(ix@[i as int].key@.len() == key@.len());
                assert(forall|x: int|
                    0 <= x < key@.len() ==> ix@[i as int].key@[x] == key@[x]);
                assert(false);
            }
        }
        i = i + 1;
    }
    None
}

/// Record `off` as the offset of the latest value for `key`, replacing the
/// key's entry if it has one and adding one otherwise.
fn index_upsert(ix: &mut Vec<IndexEntry>, key: Vec<u8>, off: u64)
    requires
        forall|i: int, j: int|
            #![trigger old(ix)@[i], old(ix)@[j]]
            0 <= i < j < old(ix)@.len() ==> old(ix)@[i].key@ != old(ix)@[j].key@,
    ensures
        forall|i: int, j: int|
            #![trigger final(ix)@[i], final(ix)@[j]]
            0 <= i < j < final(ix)@.len() ==> final(ix)@[i].key@ != final(ix)@[j].key@,
        exists|i: int|
            0 <= i < final(ix)@.len() && (#[trigger] final(ix)@[i]).key@ == key@
                && final(ix)@[i].off == off,
        forall|i: int|
            0 <= i < final(ix)@.len() && (#[trigger] final(ix)@[i]).key@ != key@
                ==> exists|j: int| 0 <= j < old(ix)@.len() && old(ix)@[j] == final(ix)@[i],
        forall|j: int|
            0 <= j < old(ix)@.len() && (#[trigger] old(ix)@[j]).key@ != key@
                ==> exists|i: int| 0 <= i < final(ix)@.len() && final(ix)@[i] == old(ix)@[j],
{
    let ghost key_view = key@;
    match find_key(ix, &key) {
        Some(i) => {
            let ghost prev = ix@;
            ix[i] = IndexEntry { key, off };
            proof {
                assert(ix@[i as int].key@ == key_view && ix@[i as int].off == off);
                assert forall|a: int|
                    0 <= a < ix@.len() && (#[trigger] ix@[a]).key@ != key_view
                    implies exists|j: int| 0 <= j < prev.len() && prev[j] == ix@[a] by {
                    assert(prev[a] == ix@[a]);
                }
                assert forall|j: int|
                    0 <= j < prev.len() && (#[trigger] prev[j]).key@ != key_view
                    implies exists|a: int| 0 <= a < ix@.len() && ix@[a] == prev[j] by {
                    assert(ix@[j] == prev[j]);
                }
            }
        },
        None => {
            let ghost prev = ix@;
            ix.push(IndexEntry { key, off });
            proof {
                assert(ix@[prev.len() as int].key@ == key_view
                    && ix@[prev.len() as int].off == off);
                assert forall|j: int|
                    0 <= j < prev.len() && (#[trigger] prev[j]).key@ != key_view
                    implies exists|a: int| 0 <= a < ix@.len() && ix@[a] == prev[j] by {
                    assert(ix@[j] == prev[j]);
                }
            }
        },
    }
}

} // verus!
