//! The storage engine: the public get/set/remove façade over the log, the
//! index, recovery and compaction.
//!
//! The engine's mathematical model is the map from keys to values that its
//! files encode. Every mutation states how it changes that map.

use vstd::prelude::*;
use vstd::slice::slice_to_vec;

use crate::codec::{
    CompactionHint, HintView, Log, LogView, spec_log_at, spec_log_encoding, spec_log_size,
    spec_log_total_at, spec_log_valid, spec_log_fits, spec_log_clean, spec_log_sum_input,
    spec_key_len_at, spec_stored_sum, spec_hint_of, spec_hint_encoding, spec_hints_of_scan,
    spec_parse_hints, spec_scan, spec_scan_complete, spec_scan_end_from, wf_log, wf_hint, lemma_log_roundtrip, lemma_log_prefix_stable,
    lemma_log_encoding_len, lemma_scan_item, lemma_parse_hints_from_extend, lemma_hints_of_scan_extend, parse_hint_stream,
    scan_records, MAX_KEY_SIZE, MAX_VALUE_SIZE, LOG_STATIC_SIZE,
};
use crate::error::Error;
use crate::index::{AnalysisCounters, MemIdx, MemIdxEntry, spec_replay_hints, spec_max_seq};
use crate::lsm::{
    DataFile, Lsm, RawFile, spec_rotate_needed, spec_append_effect, spec_valid_trailer,
    valid_trailer,
};
use crate::options::StorageOptions;

verus! {

/// The engine.
pub struct CrabeDB {
    lsm: Lsm,
    idx: MemIdx,
    current_seq: u64,
    options: StorageOptions,
}

/// The index entry of `k` in `m` points at a live, well-formed,
/// checksummed record of the file set that carries exactly this key and
/// sequence number.
pub open spec fn spec_entry_ok(lsm: Lsm, m: Map<Seq<u8>, MemIdxEntry>, k: Seq<u8>) -> bool {
    let e = m[k];
    let d = lsm.file_data(e.file_id);
    let p = e.pos as int;
    &&& lsm.has_file(e.file_id)
    &&& spec_log_valid(d, p)
    &&& spec_log_at(d, p).key == k
    &&& spec_log_at(d, p).seq == e.seq
    &&& !spec_log_at(d, p).deleted
    &&& wf_log(spec_log_at(d, p))
    &&& spec_log_total_at(d, p) == e.size
    &&& exists|j: int| 0 <= j < spec_scan(d).len() && (#[trigger] spec_scan(d)[j]).0 == p
}

/// Every entry of the index map resolves against the file set.
pub open spec fn spec_entries_ok(lsm: Lsm, m: Map<Seq<u8>, MemIdxEntry>) -> bool {
    forall|k: Seq<u8>| #[trigger] m.contains_key(k) ==> spec_entry_ok(lsm, m, k)
}

/// A data file and its hint body as the engine's own writes leave them: the
/// data scans completely into well-formed records whose sequence numbers lie
/// below `bound`, and the hint body parses into exactly the stream of those
/// records' hints.
pub open spec fn spec_file_stream_ok(data: Seq<u8>, hint: Seq<u8>, bound: u64) -> bool {
    &&& spec_scan_complete(data)
    &&& spec_parse_hints(hint) == Some(spec_hints_of_scan(data))
    &&& forall|j: int|
        0 <= j < spec_scan(data).len() ==> wf_log((#[trigger] spec_scan(data)[j]).1)
            && spec_scan(data)[j].1.seq < bound
}

/// One append through the file set keeps every file's stream well formed,
/// for any new bound that is no smaller than the old one and covers the new
/// record.
proof fn lemma_append_keeps_streams(
    pre: Lsm,
    post: Lsm,
    current: Option<u32>,
    l: LogView,
    p: (u32, u64),
    pre_bound: u64,
    post_bound: u64,
)
    requires
        pre.wf(),
        spec_append_effect(pre, post, current, l, Ok(p)),
        wf_log(l),
        l.seq < post_bound,
        pre_bound <= post_bound,
        forall|id: u32|
            #[trigger] pre.has_file(id) ==> spec_file_stream_ok(
                pre.file_data(id),
                pre.file_hint(id),
                pre_bound,
            ),
        match current {
            Some(id) => pre.has_file(id),
            None => true,
        },
    ensures
        forall|id: u32|
            #[trigger] post.has_file(id) ==> spec_file_stream_ok(
                post.file_data(id),
                post.file_hint(id),
                post_bound,
            ),
{
    let size = spec_log_size(l);
    let enc = spec_log_encoding(l);
    lemma_log_encoding_len(l);
    if spec_rotate_needed(pre, current, size) {
        let nid = (pre.file_id_seq@ + 1) as u32;
        assert forall|id: u32| #[trigger] post.has_file(id) implies spec_file_stream_ok(
            post.file_data(id),
            post.file_hint(id),
            post_bound,
        ) by {
            if id == nid {
                let d = post.file_data(id);
                assert(d == enc);
                assert(spec_scan_complete(Seq::<u8>::empty()));
                lemma_hints_of_scan_extend(Seq::empty(), enc, l);
                assert(Seq::<u8>::empty() + enc =~= enc);
                assert(spec_scan(d) == Seq::<(int, LogView)>::empty() + seq![(0int, l)]);
                assert(spec_scan(d) =~= seq![(0int, l)]);
                let h = spec_hint_of(0, l);
                assert(wf_hint(h));
                assert(spec_parse_hints(Seq::<u8>::empty()) == Some(Seq::<HintView>::empty()));
                lemma_parse_hints_from_extend(Seq::empty(), spec_hint_encoding(h), h, 0);
                assert(Seq::<u8>::empty() + spec_hint_encoding(h) =~= spec_hint_encoding(h));
                assert(post.file_hint(id) == spec_hint_encoding(h));
                assert(Seq::<HintView>::empty() + seq![h] =~= seq![h]);
                assert(spec_hints_of_scan(d) =~= seq![h]);
                assert(spec_parse_hints(post.file_hint(id)) == Some(spec_hints_of_scan(d)));
            } else {
                assert(pre.has_file(id));
                assert(spec_file_stream_ok(pre.file_data(id), pre.file_hint(id), pre_bound));
                assert(post.file_data(id) == pre.file_data(id));
                assert(post.file_hint(id) == pre.file_hint(id));
                assert forall|j: int|
                    0 <= j < spec_scan(post.file_data(id)).len() implies wf_log(
                    (#[trigger] spec_scan(post.file_data(id))[j]).1,
                ) && spec_scan(post.file_data(id))[j].1.seq < post_bound by {}
            }
        }
    } else {
        let cid = current->Some_0;
        assert forall|id: u32| #[trigger] post.has_file(id) implies spec_file_stream_ok(
            post.file_data(id),
            post.file_hint(id),
            post_bound,
        ) by {
            assert(pre.has_file(id));
            assert(spec_file_stream_ok(pre.file_data(id), pre.file_hint(id), pre_bound));
            if id == cid {
                let d = pre.file_data(cid);
                let pos = d.len();
                lemma_hints_of_scan_extend(d, enc, l);
                let h = spec_hint_of((pos as int) as u64, l);
                assert(wf_hint(h));
                lemma_parse_hints_from_extend(
                    pre.file_hint(cid),
                    spec_hint_encoding(h),
                    h,
                    0,
                );
                assert(spec_hint_of(pos as u64, l) == h);
                assert(post.file_hint(id) == pre.file_hint(cid) + spec_hint_encoding(h));
                assert(spec_parse_hints(post.file_hint(id)) == Some(
                    spec_hints_of_scan(d) + seq![h],
                ));
                assert(spec_hints_of_scan(d).push(h) =~= spec_hints_of_scan(d) + seq![h]);
                assert(post.file_data(id) == d + enc);
                let s2 = spec_scan(post.file_data(id));
                assert(s2 == spec_scan(d) + seq![(d.len() as int, l)]);
                assert forall|j: int| 0 <= j < s2.len() implies wf_log((#[trigger] s2[j]).1)
                    && s2[j].1.seq < post_bound by {
                    if j < spec_scan(d).len() {
                        assert(s2[j] == spec_scan(d)[j]);
                    } else {
                        assert(s2[j] == (d.len() as int, l));
                    }
                }
            } else {
                assert(post.file_data(id) == pre.file_data(id));
                assert(post.file_hint(id) == pre.file_hint(id));
                assert forall|j: int|
                    0 <= j < spec_scan(post.file_data(id)).len() implies wf_log(
                    (#[trigger] spec_scan(post.file_data(id))[j]).1,
                ) && spec_scan(post.file_data(id))[j].1.seq < post_bound by {}
            }
        }
    }
}

impl CrabeDB {
    /// Structural well-formedness: the file set and the index are well
    /// formed, and every indexed sequence number lies below the engine's
    /// counter.
    pub closed spec fn wf(&self) -> bool {
        &&& self.lsm.wf()
        &&& self.idx.wf()
        &&& forall|k: Seq<u8>|
            #[trigger] self.idx@.contains_key(k) ==> self.idx@[k].seq < self.current_seq
    }

    /// The index entry of `k` points at a live, well-formed, checksummed
    /// record that carries exactly this key and sequence number.
    pub closed spec fn entry_ok(&self, k: Seq<u8>) -> bool {
        spec_entry_ok(self.lsm, self.idx@, k)
    }

    /// Every index entry resolves: the state an engine is in whenever its
    /// files were written by the engine itself.
    pub closed spec fn consistent(&self) -> bool {
        &&& self.wf()
        &&& spec_entries_ok(self.lsm, self.idx@)
    }

    /// The next sequence number to be assigned.
    pub closed spec fn seq_no(&self) -> u64 {
        self.current_seq
    }

    /// The last file id handed out.
    pub closed spec fn file_id_no(&self) -> u32 {
        self.lsm.file_id_seq@
    }

    /// Both counters have room, so the next write cannot exhaust either.
    pub closed spec fn counters_available(&self) -> bool {
        self.current_seq < u64::MAX && self.lsm.file_id_seq@ < u32::MAX
    }

    /// What `counters_available` means in terms of the two counters.
    pub proof fn lemma_counters(self)
        ensures
            self.counters_available() <==> (self.seq_no() < u64::MAX && self.file_id_no()
                < u32::MAX),
    {
    }

    /// Every data file of the store scans completely and is mirrored by its
    /// hint body, with all sequence numbers below the counter: the shape the
    /// engine's own writes maintain and its exports rely on.
    pub closed spec fn files_ok(&self) -> bool {
        forall|id: u32|
            #[trigger] self.lsm.has_file(id) ==> spec_file_stream_ok(
                self.lsm.file_data(id),
                self.lsm.file_hint(id),
                self.current_seq,
            )
    }

    /// Whether a write of `payload` more bytes than a record's static prefix
    /// would exhaust a counter: the sequence counter, or the file-id counter
    /// when the write forces a rotation.
    pub closed spec fn exhausted(&self, payload: int) -> bool {
        ||| self.current_seq == u64::MAX
        ||| (spec_rotate_needed(
            self.lsm,
            self.lsm.active_file_id,
            LOG_STATIC_SIZE + payload,
        ) && self.lsm.file_id_seq@ == u32::MAX)
    }

    /// The configuration the engine runs with.
    pub fn options(&self) -> (r: &StorageOptions)
        ensures
            *r == self.spec_options(),
    {
        &self.options
    }

    /// The configuration, as contracts speak of it.
    pub closed spec fn spec_options(&self) -> StorageOptions {
        self.options
    }
}

impl CrabeDB {
    /// The indexed record of `k` exists in its file but fails its checksum:
    /// the one corruption a lookup can meet on an otherwise well-formed
    /// index entry.
    pub closed spec fn spec_record_corrupt(&self, k: Seq<u8>) -> bool {
        &&& self.idx@.contains_key(k)
        &&& self.lsm.has_file(self.idx@[k].file_id)
        &&& {
            let e = self.idx@[k];
            let d = self.lsm.file_data(e.file_id);
            let p = e.pos as int;
            &&& e.pos <= d.len()
            &&& p + LOG_STATIC_SIZE <= d.len()
            &&& spec_key_len_at(d, p) != 0
            &&& spec_log_fits(d, p)
            &&& !spec_log_clean(d, p)
        }
    }

    /// The checksum the corrupt record of `k` claims for itself.
    pub closed spec fn spec_stored_digest(&self, k: Seq<u8>) -> u32 {
        let e = self.idx@[k];
        spec_stored_sum(self.lsm.file_data(e.file_id), e.pos as int)
    }

    /// The digest the corrupt record of `k` actually hashes to.
    pub closed spec fn spec_computed_digest(&self, k: Seq<u8>) -> u32 {
        let e = self.idx@[k];
        let d = self.lsm.file_data(e.file_id);
        crate::checksum::xxhash32_of(spec_log_sum_input(d, e.pos as int))
    }
}

impl View for CrabeDB {
    type V = Map<Seq<u8>, Seq<u8>>;

    /// The key/value map the engine holds: one entry per indexed key, whose
    /// value is read out of the record its index entry points at.
    closed spec fn view(&self) -> Map<Seq<u8>, Seq<u8>> {
        Map::new(
            |k: Seq<u8>| self.idx@.contains_key(k),
            |k: Seq<u8>|
                spec_log_at(
                    self.lsm.file_data(self.idx@[k].file_id),
                    self.idx@[k].pos as int,
                ).value,
        )
    }
}

impl CrabeDB {
    /// Look one key up: the value last written, `None` for a key never set
    /// or since removed.
    pub fn get(&self, key: &[u8]) -> (r: Result<Option<Vec<u8>>, Error>)
        requires
            self.wf(),
        ensures
            !self@.contains_key(key@) ==> r == Ok::<Option<Vec<u8>>, Error>(None),
            self.spec_record_corrupt(key@) ==> r == Err::<Option<Vec<u8>>, Error>(
                Error::InvalidChecksum {
                    expected: self.spec_stored_digest(key@),
                    found: self.spec_computed_digest(key@),
                },
            ),
            self.consistent() ==> {
                &&& r is Ok
                &&& (self@.contains_key(key@) ==> (r->Ok_0 matches Some(v) && v@ == self@[key@]))
            },
    {
        match self.idx.get(key) {
            Some(e) => {
                let entry = *e;
                let log = match self.lsm.read_log(entry.file_id, entry.pos) {
                    Ok(l) => l,
                    Err(err) => {
                        return Err(err);
                    },
                };
                if log.deleted {
                    Ok(None)
                } else {
                    Ok(Some(log.value))
                }
            },
            None => Ok(None),
        }
    }

    /// Write one key/value pair. On success the engine's map gains exactly
    /// this pair and the sequence counter advances; an oversized key or
    /// value is rejected unchanged, and an exhausted counter reports an
    /// `Io` error unchanged.
    pub fn set(&mut self, key: &[u8], value: &[u8]) -> (r: Result<(), Error>)
        requires
            old(self).wf(),
        ensures
            final(self).wf(),
            ({
                let kl = key@.len() as int;
                let vl = value@.len() as int;
                if kl == 0 || kl > MAX_KEY_SIZE as int {
                    &&& r == Err::<(), Error>(Error::InvalidKeySize(key@.len() as usize))
                    &&& *final(self) == *old(self)
                } else if vl > MAX_VALUE_SIZE as int {
                    &&& r == Err::<(), Error>(Error::InvalidValueSize(value@.len() as usize))
                    &&& *final(self) == *old(self)
                } else {
                    &&& (r is Ok <==> !old(self).exhausted(kl + vl))
                    &&& (old(self).counters_available() ==> r is Ok)
                    &&& (r is Err ==> *final(self) == *old(self) && r->Err_0 is Io)
                    &&& (r is Ok ==> {
                        &&& final(self).seq_no() == old(self).seq_no() + 1
                        &&& old(self).file_id_no() <= final(self).file_id_no() <= old(
                            self,
                        ).file_id_no() + 1
                        &&& spec_wrote_record(
                            *old(self),
                            *final(self),
                            LogView {
                                key: key@,
                                value: value@,
                                seq: old(self).seq_no(),
                                deleted: false,
                            },
                        )
                        &&& (old(self).consistent() && old(self).files_ok()
                            ==> final(self).consistent() && final(self)@ == old(self)@.insert(
                            key@,
                            value@,
                        ))
                        &&& (old(self).files_ok() ==> final(self).files_ok())
                    })
                }
            }),
    {
        let kvec = slice_to_vec(key);
        let vvec = slice_to_vec(value);
        let log = match Log::new(self.current_seq, kvec, vvec) {
            Ok(l) => l,
            Err(e) => {
                return Err(e);
            },
        };
        if self.current_seq == u64::MAX {
            return Err(Error::Io("sequence numbers exhausted".to_owned()));
        }
        let ghost pre = *self;
        let (file_id, pos) = match self.lsm.append_log(&log) {
            Ok(p) => p,
            Err(e) => {
                proof {
                    assert(*final(self) == *old(self));
                }
                return Err(e);
            },
        };
        self.current_seq = self.current_seq + 1;
        let size = log.size();
        let entry = MemIdxEntry { pos, seq: log.seq, size, file_id };
        let ghost l = log@;
        self.idx.set(log.key, entry);
        proof {
            let post = *self;
            let enc = spec_log_encoding(l);
            let d = post.lsm.file_data(file_id);
            lemma_log_encoding_len(l);
            // The fresh record decodes back to itself at its offset.
            if spec_rotate_needed(pre.lsm, pre.lsm.active_file_id, spec_log_size(l)) {
                assert(d == enc);
                assert(d.subrange(pos as int, pos as int + spec_log_size(l)) =~= enc);
            } else {
                assert(d == pre.lsm.file_data(file_id) + enc);
                assert(d.subrange(pos as int, pos as int + spec_log_size(l)) =~= enc);
            }
            lemma_log_roundtrip(d, pos as int, l);
            assert(post.idx@ == pre.idx@.insert(key@, entry));
            assert(post.wf());
            if pre.consistent() && pre.files_ok() {
                let rotated = spec_rotate_needed(pre.lsm, pre.lsm.active_file_id, spec_log_size(l));
                if rotated {
                    assert(spec_scan_end_from(Seq::<u8>::empty(), 0) == 0);
                    assert(spec_scan_complete(Seq::<u8>::empty()));
                    lemma_hints_of_scan_extend(Seq::empty(), enc, l);
                    assert(Seq::<u8>::empty() + enc =~= enc);
                    assert(spec_scan(d) == Seq::<(int, LogView)>::empty() + seq![(0int, l)]);
                    assert(spec_scan(d)[0].0 == pos as int);
                } else {
                    let dpre = pre.lsm.file_data(file_id);
                    assert(pre.lsm.has_file(file_id));
                    assert(spec_file_stream_ok(
                        dpre,
                        pre.lsm.file_hint(file_id),
                        pre.current_seq,
                    ));
                    lemma_hints_of_scan_extend(dpre, enc, l);
                    assert(spec_scan(d)[spec_scan(dpre).len() as int].0 == pos as int);
                }
                assert forall|k: Seq<u8>| #[trigger]
                    post.idx@.contains_key(k) implies post.entry_ok(k) by {
                    if k == key@ {
                        assert(post.entry_ok(k));
                    } else {
                        assert(pre.idx@.contains_key(k));
                        assert(pre.entry_ok(k));
                        let e = pre.idx@[k];
                        assert(post.idx@[k] == e);
                        if e.file_id == file_id && !rotated {
                            let dpre = pre.lsm.file_data(file_id);
                            lemma_log_prefix_stable(dpre, enc, e.pos as int);
                            let j = choose|j: int|
                                0 <= j < spec_scan(dpre).len() && (#[trigger] spec_scan(
                                    dpre,
                                )[j]).0 == e.pos as int;
                            assert(spec_scan(d)[j] == spec_scan(dpre)[j]);
                            assert(spec_scan(d)[j].0 == e.pos as int);
                        } else {
                            assert(post.lsm.file_data(e.file_id) == pre.lsm.file_data(e.file_id));
                        }
                    }
                }
                assert(post.consistent());
                assert forall|k: Seq<u8>| #![auto] true implies post@.contains_key(k) == pre@.insert(
                    key@,
                    value@,
                ).contains_key(k) && (post@.contains_key(k) ==> post@[k] == pre@.insert(
                    key@,
                    value@,
                )[k]) by {
                    if post@.contains_key(k) {
                        if k == key@ {
                            assert(post@[k] == value@);
                        } else {
                            let e = pre.idx@[k];
                            if e.file_id == file_id && !spec_rotate_needed(
                                pre.lsm,
                                pre.lsm.active_file_id,
                                spec_log_size(l),
                            ) {
                                lemma_log_prefix_stable(
                                    pre.lsm.file_data(e.file_id),
                                    enc,
                                    e.pos as int,
                                );
                            }
                        }
                    }
                }
                assert(post@ =~= pre@.insert(key@, value@));
            }
            if pre.files_ok() {
                lemma_append_keeps_streams(
                    pre.lsm,
                    post.lsm,
                    pre.lsm.active_file_id,
                    l,
                    (file_id, pos),
                    pre.current_seq,
                    post.current_seq,
                );
                assert(post.files_ok());
            }
            assert(spec_append_effect(pre.lsm, post.lsm, pre.lsm.active_file_id, l, Ok((
                file_id,
                pos,
            ))));
            assert(spec_wrote_record(pre, post, l));
        }
        Ok(())
    }

    /// Remove one key: a present key gets a tombstone appended and leaves
    /// the map; an absent key is a no-op.
    pub fn remove(&mut self, key: &[u8]) -> (r: Result<(), Error>)
        requires
            old(self).wf(),
        ensures
            final(self).wf(),
            !old(self)@.contains_key(key@) ==> *final(self) == *old(self) && r is Ok,
            old(self)@.contains_key(key@) ==> ({
                let kl = key@.len() as int;
                if kl == 0 || kl > MAX_KEY_SIZE as int {
                    &&& r == Err::<(), Error>(Error::InvalidKeySize(key@.len() as usize))
                    &&& *final(self) == *old(self)
                } else {
                    &&& (r is Ok <==> !old(self).exhausted(kl))
                    &&& (old(self).counters_available() ==> r is Ok)
                    &&& (r is Err ==> *final(self) == *old(self) && r->Err_0 is Io)
                    &&& (r is Ok ==> {
                        &&& final(self).seq_no() == old(self).seq_no() + 1
                        &&& old(self).file_id_no() <= final(self).file_id_no() <= old(
                            self,
                        ).file_id_no() + 1
                        &&& spec_wrote_record(
                            *old(self),
                            *final(self),
                            LogView {
                                key: key@,
                                value: Seq::<u8>::empty(),
                                seq: old(self).seq_no(),
                                deleted: true,
                            },
                        )
                        &&& (old(self).consistent() && old(self).files_ok()
                            ==> final(self).consistent() && final(self)@ == old(self)@.remove(
                            key@,
                        ))
                        &&& (old(self).files_ok() ==> final(self).files_ok())
                    })
                }
            }),
    {
        let present = match self.idx.get(key) {
            Some(_) => true,
            None => false,
        };
        if !present {
            return Ok(());
        }
        if key.len() == 0 || key.len() > MAX_KEY_SIZE as usize {
            return Err(Error::InvalidKeySize(key.len()));
        }
        if self.current_seq == u64::MAX {
            return Err(Error::Io("sequence numbers exhausted".to_owned()));
        }
        let log = Log::deleted(self.current_seq, slice_to_vec(key));
        let ghost pre = *self;
        let landed = match self.lsm.append_log(&log) {
            Ok(p) => p,
            Err(e) => {
                return Err(e);
            },
        };
        self.current_seq = self.current_seq + 1;
        self.idx.remove(key);
        proof {
            let post = *self;
            let l = log@;
            let enc = spec_log_encoding(l);
            assert(post.idx@ == pre.idx@.remove(key@));
            assert(post.wf());
            if pre.consistent() && pre.files_ok() {
                let rotated = spec_rotate_needed(pre.lsm, pre.lsm.active_file_id, spec_log_size(l));
                if !rotated {
                    let cid = pre.lsm.active_file_id->Some_0;
                    let dpre = pre.lsm.file_data(cid);
                    assert(pre.lsm.has_file(cid));
                    assert(spec_file_stream_ok(dpre, pre.lsm.file_hint(cid), pre.current_seq));
                    lemma_hints_of_scan_extend(dpre, enc, l);
                }
                assert forall|k: Seq<u8>| #[trigger]
                    post.idx@.contains_key(k) implies post.entry_ok(k) by {
                    assert(pre.idx@.contains_key(k));
                    assert(pre.entry_ok(k));
                    let e = pre.idx@[k];
                    assert(post.idx@[k] == e);
                    if post.lsm.file_data(e.file_id) != pre.lsm.file_data(e.file_id) {
                        let dpre = pre.lsm.file_data(e.file_id);
                        lemma_log_prefix_stable(dpre, enc, e.pos as int);
                        assert(post.lsm.file_data(e.file_id) == dpre + enc);
                        let j = choose|j: int|
                            0 <= j < spec_scan(dpre).len() && (#[trigger] spec_scan(dpre)[j]).0
                                == e.pos as int;
                        assert(spec_scan(post.lsm.file_data(e.file_id))[j] == spec_scan(dpre)[j]);
                        assert(spec_scan(post.lsm.file_data(e.file_id))[j].0 == e.pos as int);
                    }
                }
                assert(post.consistent());
                assert forall|k: Seq<u8>| #![auto] post@.contains_key(k) implies post@[k]
                    == pre@.remove(key@)[k] by {
                    let e = pre.idx@[k];
                    if post.lsm.file_data(e.file_id) != pre.lsm.file_data(e.file_id) {
                        lemma_log_prefix_stable(pre.lsm.file_data(e.file_id), enc, e.pos as int);
                    }
                }
                assert(post@ =~= pre@.remove(key@));
            }
            if pre.files_ok() {
                lemma_append_keeps_streams(
                    pre.lsm,
                    post.lsm,
                    pre.lsm.active_file_id,
                    l,
                    landed,
                    pre.current_seq,
                    post.current_seq,
                );
                assert(post.files_ok());
            }
            assert(spec_append_effect(pre.lsm, post.lsm, pre.lsm.active_file_id, l, Ok(landed)));
            assert(spec_wrote_record(pre, post, l));
        }
        Ok(())
    }

    /// A snapshot of every key currently present.
    pub fn keys(&self) -> (r: Vec<Vec<u8>>)
        requires
            self.wf(),
        ensures
            forall|i: int| 0 <= i < r@.len() ==> self@.contains_key(#[trigger] r@[i]@),
            forall|i: int, j: int| 0 <= i < j < r@.len() ==> r@[i]@ != r@[j]@,
            forall|k: Seq<u8>|
                #[trigger] self@.contains_key(k) ==> exists|i: int|
                    0 <= i < r@.len() && r@[i]@ == k,
    {
        self.idx.keys()
    }
}

/// The hint stream recovery uses for one raw file: the stored hints where
/// the trailing checksum holds, the stream rebuilt from the data file
/// otherwise.
pub open spec fn spec_recovered_hints(f: RawFile) -> Seq<HintView> {
    let body = f.hint@.subrange(0, f.hint@.len() - 4);
    if spec_valid_trailer(f.hint@) && spec_parse_hints(body) is Some {
        spec_parse_hints(body)->Some_0
    } else {
        spec_hints_of_scan(f.data@)
    }
}

/// A raw file exactly as the engine itself persists one: the data file
/// scans completely into well-formed records, and the hint file is the
/// stream of those records' hints under a correct trailing checksum.
pub open spec fn spec_good_raw_file(f: RawFile) -> bool {
    &&& spec_scan_complete(f.data@)
    &&& spec_valid_trailer(f.hint@)
    &&& spec_parse_hints(f.hint@.subrange(0, f.hint@.len() - 4)) == Some(
        spec_hints_of_scan(f.data@),
    )
    &&& forall|j: int|
        0 <= j < spec_scan(f.data@).len() ==> wf_log((#[trigger] spec_scan(f.data@)[j]).1)
            && spec_scan(f.data@)[j].1.seq < u64::MAX
}

/// The data bytes recovery keeps for one raw file: the whole file when its
/// stored hint stream is used, and the scanned prefix — the torn tail cut
/// away — when the stream is rebuilt.
pub open spec fn spec_recovered_data(f: RawFile) -> Seq<u8> {
    let body = f.hint@.subrange(0, f.hint@.len() - 4);
    if spec_valid_trailer(f.hint@) && spec_parse_hints(body) is Some {
        f.data@
    } else {
        f.data@.subrange(0, spec_scan_end_from(f.data@, 0))
    }
}

/// A raw file recovery digests without error: either a good file, or one
/// whose hint trailer is broken (deleted, torn, or never closed) while the
/// records its data file scans into are well formed — the rebuild path. Only
/// a file whose hint trailer checksums over a body that does not parse, or
/// whose scanned records are malformed, falls outside.
pub open spec fn spec_recoverable_raw_file(f: RawFile) -> bool {
    ||| spec_good_raw_file(f)
    ||| (!spec_valid_trailer(f.hint@) && forall|j: int|
        0 <= j < spec_scan(f.data@).len() ==> wf_log((#[trigger] spec_scan(f.data@)[j]).1)
            && spec_scan(f.data@)[j].1.seq < u64::MAX)
}

/// The index that replaying a set of raw files, in the order given, yields.
pub open spec fn spec_load_index(fs: Seq<RawFile>) -> Map<Seq<u8>, MemIdxEntry>
    decreases fs.len(),
{
    if fs.len() == 0 {
        Map::empty()
    } else {
        spec_replay_hints(
            spec_load_index(fs.drop_last()),
            spec_recovered_hints(fs.last()),
            fs.last().id,
        )
    }
}

/// The largest sequence number any replayed hint carries, zero when there is
/// none.
pub open spec fn spec_load_seq(fs: Seq<RawFile>) -> u64
    decreases fs.len(),
{
    if fs.len() == 0 {
        0
    } else {
        spec_max_seq(spec_recovered_hints(fs.last()), spec_load_seq(fs.drop_last()))
    }
}

impl CrabeDB {
    /// The index, as recovery contracts speak of it.
    pub closed spec fn index_map(&self) -> Map<Seq<u8>, MemIdxEntry> {
        self.idx@
    }

    /// Open a store from the files read back from its directory, in
    /// ascending id order. Each file is recovered from its hint stream when
    /// the trailing checksum holds, and otherwise by scanning the data file,
    /// rebuilding the hint stream and cutting away a torn tail; a hint file
    /// that checksums but does not parse aborts the open. The sequence
    /// counter restarts just past the largest sequence number seen.
    pub fn load(files: Vec<RawFile>, options: StorageOptions) -> (r: Result<CrabeDB, Error>)
        requires
            forall|i: int, j: int| 0 <= i < j < files@.len() ==> files@[i].id < files@[j].id,
        ensures
            r matches Ok(db) ==> {
                &&& db.wf()
                &&& db.index_map() == spec_load_index(files@)
                &&& db.seq_no() == spec_load_seq(files@) + 1
                &&& db.spec_options() == options
            },
            files@.len() == 0 ==> r is Ok && r->Ok_0@ == Map::<Seq<u8>, Seq<u8>>::empty()
                && r->Ok_0.consistent() && r->Ok_0.files_ok(),
            (forall|a: int|
                0 <= a < files@.len() ==> spec_recoverable_raw_file(#[trigger] files@[a])) ==> r
                is Ok && r->Ok_0.consistent() && r->Ok_0.files_ok(),
            r matches Ok(db) ==> db.file_id_no() == (if files@.len() == 0 {
                0u32
            } else {
                files@.last().id
            }),
            r matches Ok(db) ==> {
                &&& db.active_file_id() is None
                &&& db.file_count() == files@.len()
                &&& forall|j: int|
                    0 <= j < files@.len() ==> {
                        &&& (#[trigger] db.stored_file(j)).id == files@[j].id
                        &&& db.stored_file(j).data@ == spec_recovered_data(files@[j])
                        &&& spec_parse_hints(db.stored_file(j).hint@) == Some(
                            spec_recovered_hints(files@[j]),
                        )
                    }
            },
    {
        let ghost recov = forall|a: int|
            0 <= a < files@.len() ==> spec_recoverable_raw_file(#[trigger] files@[a]);
        let n = files.len();
        let last_id: u32 = if n == 0 {
            0
        } else {
            files[n - 1].id
        };
        let mut lsm = Lsm::new(last_id, options.max_file_size as u64);
        let mut idx = MemIdx::new();
        let mut maxseq: u64 = 0;
        let mut i: usize = 0;
        while i < n
            invariant
                n == files@.len(),
                i <= n,
                forall|a: int, b: int| 0 <= a < b < n ==> files@[a].id < files@[b].id,
                n > 0 ==> last_id == files@[n - 1].id,
                lsm.wf(),
                lsm.store@.len() == i,
                forall|j: int| 0 <= j < i ==> #[trigger] lsm.store@[j].id == files@[j].id,
                forall|j: int|
                    0 <= j < i ==> (#[trigger] lsm.store@[j]).data@ == spec_recovered_data(
                        files@[j],
                    ),
                forall|j: int|
                    0 <= j < i ==> spec_parse_hints((#[trigger] lsm.store@[j]).hint@) == Some(
                        spec_recovered_hints(files@[j]),
                    ),
                lsm.active_file_id is None,
                lsm.file_id_seq@ == last_id,
                lsm.max_file_size == options.max_file_size as u64,
                idx.wf(),
                idx@ == spec_load_index(files@.subrange(0, i as int)),
                maxseq == spec_load_seq(files@.subrange(0, i as int)),
                forall|k: Seq<u8>| #[trigger] idx@.contains_key(k) ==> idx@[k].seq <= maxseq,
                recov ==> forall|a: int|
                    0 <= a < n ==> spec_recoverable_raw_file(#[trigger] files@[a]),
                recov ==> spec_entries_ok(lsm, idx@),
                recov ==> maxseq < u64::MAX,
                recov ==> forall|id: u32|
                    #[trigger] lsm.has_file(id) ==> spec_file_stream_ok(
                        lsm.file_data(id),
                        lsm.file_hint(id),
                        (maxseq + 1) as u64,
                    ),
            decreases n - i,
        {
            let fid = files[i].id;
            let ghost fsub = files@.subrange(0, i as int);
            let ghost fsub1 = files@.subrange(0, i + 1);
            let ghost hs = spec_recovered_hints(files@[i as int]);
            let trailer_ok = valid_trailer(files[i].hint.as_slice());
            let mut parsed: Option<Vec<CompactionHint>> = None;
            if trailer_ok {
                let hlen = files[i].hint.len();
                let body = vstd::slice::slice_subrange(files[i].hint.as_slice(), 0, hlen - 4);
                match parse_hint_stream(body) {
                    Ok(hints) => {
                        parsed = Some(hints);
                    },
                    Err(e) => {
                        // A hint file that checksums but does not parse is a
                        // hard failure in the middle of recovery. No file the
                        // engine itself persisted takes this path.
                        proof {
                            if recov {
                                assert(spec_recoverable_raw_file(files@[i as int]));
                                assert(spec_valid_trailer(files@[i as int].hint@));
                                assert(spec_good_raw_file(files@[i as int]));
                                assert(false);
                            }
                        }
                        return Err(e);
                    },
                }
            }
            let (data_vec, hint_body, hints): (Vec<u8>, Vec<u8>, Vec<CompactionHint>) = match parsed {
                Some(hints) => {
                    let mut body_copy: Vec<u8> = Vec::new();
                    let hlen = files[i].hint.len();
                    body_copy.extend_from_slice(
                        vstd::slice::slice_subrange(files[i].hint.as_slice(), 0, hlen - 4),
                    );
                    let mut data_copy: Vec<u8> = Vec::new();
                    data_copy.extend_from_slice(files[i].data.as_slice());
                    proof {
                        assert(body_copy@ =~= files@[i as int].hint@.subrange(
                            0,
                            files@[i as int].hint@.len() - 4,
                        ));
                        assert(data_copy@ =~= files@[i as int].data@);
                        assert(spec_parse_hints(body_copy@) is Some);
                        assert(data_copy@ == spec_recovered_data(files@[i as int]));
                        assert(spec_parse_hints(body_copy@) == Some(
                            spec_recovered_hints(files@[i as int]),
                        ));
                        if recov {
                            assert(spec_recoverable_raw_file(files@[i as int]));
                            assert(spec_valid_trailer(files@[i as int].hint@));
                            assert(spec_good_raw_file(files@[i as int]));
                        }
                    }
                    (data_copy, body_copy, hints)
                },
                None => {
                    // Rebuild the hint stream by scanning the data file; a
                    // torn tail simply ends the scan and is cut away.
                    let (items, end) = scan_records(files[i].data.as_slice());
                    let ghost d = files@[i as int].data@;
                    let mut hint_body: Vec<u8> = Vec::new();
                    let mut hints: Vec<CompactionHint> = Vec::new();
                    let m = items.len();
                    let mut t: usize = 0;
                    while t < m
                        invariant
                            m == items@.len(),
                            t <= m,
                            spec_scan(d).len() == m,
                            forall|j: int|
                                0 <= j < m ==> (#[trigger] items@[j]).0 == spec_scan(d)[j].0
                                    && items@[j].1@ == spec_scan(d)[j].1,
                            hints@.len() == t,
                            forall|j: int|
                                0 <= j < t ==> #[trigger] hints@[j]@ == spec_hints_of_scan(d)[j],
                            forall|j: int|
                                0 <= j < t ==> (#[trigger] hints@[j])@.key.len() <= 0xffff,
                            spec_parse_hints(hint_body@) == Some(
                                spec_hints_of_scan(d).subrange(0, t as int),
                            ),
                        decreases m - t,
                    {
                        let pos = items[t].0;
                        proof {
                            lemma_scan_item(d, 0, t as int);
                            assert(spec_scan(d)[t as int].1 == spec_log_at(d, spec_scan(d)[t as int].0));
                        }
                        let ch = CompactionHint::new(&items[t].1, pos);
                        proof {
                            assert(wf_hint(ch@));
                            assert(spec_parse_hints(hint_body@) is Some);
                            lemma_parse_hints_from_extend(
                                hint_body@,
                                spec_hint_encoding(ch@),
                                ch@,
                                0,
                            );
                        }
                        ch.write_bytes(&mut hint_body);
                        hints.push(ch);
                        proof {
                            assert(spec_hints_of_scan(d).subrange(0, t as int).push(ch@)
                                =~= spec_hints_of_scan(d).subrange(0, t + 1));
                        }
                        t = t + 1;
                    }
                    proof {
                        crate::codec::lemma_scan_end_bounds(d, 0);
                    }
                    let mut data_copy: Vec<u8> = Vec::new();
                    data_copy.extend_from_slice(
                        vstd::slice::slice_subrange(files[i].data.as_slice(), 0, end),
                    );
                    proof {
                        assert(data_copy@ =~= d.subrange(0, end as int));
                        assert(spec_hints_of_scan(d).subrange(0, m as int) =~= spec_hints_of_scan(
                            d,
                        ));
                        crate::codec::lemma_hints_of_scan_truncate(d);
                        assert(data_copy@ == spec_recovered_data(files@[i as int]));
                        assert(spec_parse_hints(hint_body@) == Some(
                            spec_recovered_hints(files@[i as int]),
                        ));
                        if recov {
                            assert(spec_recoverable_raw_file(files@[i as int]));
                            assert(!spec_valid_trailer(files@[i as int].hint@));
                        }
                    }
                    (data_copy, hint_body, hints)
                },
            };
            proof {
                assert(forall|j: int|
                    0 <= j < hs.len() ==> #[trigger] hints@[j]@ == hs[j]);
                assert(hints@.len() == hs.len());
                assert(forall|j: int|
                    0 <= j < hints@.len() ==> (#[trigger] hints@[j])@.key.len() <= 0xffff);
            }
            let ghost pre_lsm = lsm;
            let ghost dview = data_vec@;
            let ghost hview = hint_body@;
            lsm.store.push(DataFile { id: fid, data: data_vec, hint: hint_body });
            proof {
                assert(forall|j: int|
                    0 <= j < i ==> #[trigger] lsm.store@[j] == pre_lsm.store@[j]);
                assert(lsm.store@[i as int].id == fid);
                assert(lsm.wf());
                lsm.lemma_file_lookup();
                pre_lsm.lemma_file_lookup();
                assert(lsm.file_index(fid) == i as int);
                assert(lsm.file_data(fid) == dview);
                assert(lsm.file_hint(fid) == hview);
                assert forall|id: u32| #[trigger]
                    lsm.has_file(id) && id != fid implies lsm.file_data(id) == pre_lsm.file_data(
                    id,
                ) && lsm.file_hint(id) == pre_lsm.file_hint(id) && pre_lsm.has_file(id) by {
                    let w = lsm.file_index(id);
                    assert(w < pre_lsm.store@.len());
                    assert(pre_lsm.store@[w].id == id);
                    assert(pre_lsm.file_index(id) == w);
                }
                if recov {
                    assert forall|k: Seq<u8>| #[trigger] idx@.contains_key(k) implies spec_entry_ok(
                        lsm,
                        idx@,
                        k,
                    ) by {
                        assert(spec_entry_ok(pre_lsm, idx@, k));
                        let e = idx@[k];
                        let w = pre_lsm.file_index(e.file_id);
                        assert(lsm.store@[w] == pre_lsm.store@[w]);
                        assert(lsm.has_file(e.file_id));
                        assert(lsm.file_index(e.file_id) == w);
                    }
                    assert(spec_entries_ok(lsm, idx@));
                }
            }
            // Replay the hints of this file against the index.
            let m2 = hints.len();
            let ghost pre_map = idx@;
            let ghost pre_max = maxseq;
            let mut t: usize = 0;
            while t < m2
                invariant
                    m2 == hints@.len(),
                    t <= m2,
                    hs.len() == m2,
                    forall|j: int| 0 <= j < m2 ==> #[trigger] hints@[j]@ == hs[j],
                    idx.wf(),
                    idx@ == spec_replay_hints(pre_map, hs.subrange(0, t as int), fid),
                    maxseq == spec_max_seq(hs.subrange(0, t as int), pre_max),
                    forall|k: Seq<u8>| #[trigger] idx@.contains_key(k) ==> idx@[k].seq <= maxseq,
                    forall|j: int| 0 <= j < m2 ==> (#[trigger] hints@[j])@.key.len() <= 0xffff,
                    0 <= i < files@.len(),
                    lsm.wf(),
                    lsm.has_file(fid),
                    lsm.file_data(fid) == dview,
                    lsm.file_hint(fid) == hview,
                    recov ==> spec_scan_complete(dview),
                    recov ==> hs == spec_hints_of_scan(dview),
                    recov ==> forall|j: int|
                        0 <= j < spec_scan(dview).len() ==> wf_log(
                            (#[trigger] spec_scan(dview)[j]).1,
                        ) && spec_scan(dview)[j].1.seq < u64::MAX,
                    recov ==> spec_entries_ok(lsm, idx@),
                    recov ==> maxseq < u64::MAX,
                    maxseq >= pre_max,
                    forall|j: int| 0 <= j < t ==> (#[trigger] hs[j]).seq <= maxseq,
                    recov ==> spec_parse_hints(hview) == Some(hs),
                    recov ==> forall|id: u32|
                        #[trigger] lsm.has_file(id) && id != fid ==> spec_file_stream_ok(
                            lsm.file_data(id),
                            lsm.file_hint(id),
                            (pre_max + 1) as u64,
                        ),
                decreases m2 - t,
            {
                let h = CompactionHint {
                    key: slice_to_vec(hints[t].key.as_slice()),
                    log_pos: hints[t].log_pos,
                    value_size: hints[t].value_size,
                    seq: hints[t].seq,
                    deleted: hints[t].deleted,
                };
                if h.seq > maxseq {
                    maxseq = h.seq;
                }
                let ghost mid_map = idx@;
                idx.update(h, fid);
                proof {
                    assert(hs.subrange(0, t + 1).drop_last() =~= hs.subrange(0, t as int));
                    assert(hs.subrange(0, t + 1).last() == hs[t as int]);
                    if recov {
                        let d = dview;
                        let item = spec_scan(d)[t as int];
                        assert(hs.len() == spec_scan(d).len());
                        assert(0 <= t < spec_scan(d).len());
                        lemma_scan_item(d, 0, t as int);
                        assert(spec_hints_of_scan(d)[t as int] == spec_hint_of(
                            spec_scan(d)[t as int].0 as u64,
                            spec_scan(d)[t as int].1,
                        ));
                        assert(hs[t as int] == spec_hint_of(item.0 as u64, item.1));
                        assert(wf_log(item.1) && item.1.seq < u64::MAX);
                        let w = lsm.file_index(fid);
                        assert(lsm.store@[w].data@ == d);
                        assert(d.len() == lsm.store@[w].data.len());
                        assert(0 <= item.0 <= d.len());
                        assert((item.0 as u64) as int == item.0);
                        assert forall|k: Seq<u8>| #[trigger]
                            idx@.contains_key(k) implies spec_entry_ok(lsm, idx@, k) by {
                            if mid_map.contains_key(k) && idx@[k] == mid_map[k] {
                                assert(spec_entry_ok(lsm, mid_map, k));
                            } else {
                                // The entry was just installed from this hint.
                                assert(k == h@.key && idx@[k] == crate::index::spec_hint_entry(
                                    h@,
                                    fid,
                                ) && !h@.deleted);
                                assert(item.0 <= d.len());
                                assert(idx@[k].pos == item.0 as u64);
                                assert(spec_log_valid(d, item.0));
                                assert(spec_log_at(d, item.0) == item.1);
                                assert(item.1.key == k);
                                assert(spec_log_total_at(d, item.0) == LOG_STATIC_SIZE
                                    + item.1.key.len() + item.1.value.len());
                                assert(idx@[k].size == LOG_STATIC_SIZE + item.1.key.len()
                                    + item.1.value.len());
                            }
                        }
                        assert(spec_entries_ok(lsm, idx@));
                    }
                }
                t = t + 1;
            }
            proof {
                assert(hs.subrange(0, m2 as int) =~= hs);
                assert(fsub1.drop_last() =~= fsub);
                assert(fsub1.last() == files@[i as int]);
                assert(idx@ == spec_load_index(fsub1));
                assert(maxseq == spec_load_seq(fsub1));
                if recov {
                    let d = dview;
                    assert forall|id: u32| #[trigger] lsm.has_file(id) implies spec_file_stream_ok(
                        lsm.file_data(id),
                        lsm.file_hint(id),
                        (maxseq + 1) as u64,
                    ) by {
                        if id == fid {
                            assert(spec_scan_complete(d));
                            assert(spec_parse_hints(lsm.file_hint(fid)) == Some(
                                spec_hints_of_scan(d),
                            ));
                            assert forall|j: int|
                                0 <= j < spec_scan(d).len() implies wf_log(
                                (#[trigger] spec_scan(d)[j]).1,
                            ) && spec_scan(d)[j].1.seq < (maxseq + 1) as u64 by {
                                assert(spec_hints_of_scan(d)[j] == spec_hint_of(
                                    spec_scan(d)[j].0 as u64,
                                    spec_scan(d)[j].1,
                                ));
                                assert(hs[j].seq == spec_scan(d)[j].1.seq);
                                assert(hs[j].seq <= maxseq);
                            }
                        } else {
                            assert(spec_file_stream_ok(
                                lsm.file_data(id),
                                lsm.file_hint(id),
                                (pre_max + 1) as u64,
                            ));
                            let d2 = lsm.file_data(id);
                            assert forall|j: int|
                                0 <= j < spec_scan(d2).len() implies wf_log(
                                (#[trigger] spec_scan(d2)[j]).1,
                            ) && spec_scan(d2)[j].1.seq < (maxseq + 1) as u64 by {}
                        }
                    }
                }
            }
            i = i + 1;
        }
        proof {
            assert(files@.subrange(0, n as int) =~= files@);
        }
        if maxseq == u64::MAX {
            proof {
                assert(!recov);
            }
            return Err(Error::Io("sequence numbers exhausted".to_owned()));
        }
        let db = CrabeDB { lsm, idx, current_seq: maxseq + 1, options };
        proof {
            if files@.len() == 0 {
                assert(db.idx@ =~= Map::<Seq<u8>, MemIdxEntry>::empty());
                assert(db@ =~= Map::<Seq<u8>, Seq<u8>>::empty());
                assert(db.consistent());
                assert(db.files_ok());
            }
            if recov {
                assert(db.consistent());
                assert(db.files_ok());
            }
        }
        Ok(db)
    }

    /// Hand the whole store out for persistence: each data file's bytes,
    /// and its hint body closed with the 4-byte trailing checksum. The
    /// result is fit to be fed back to `load`.
    pub fn export_files(&self) -> (r: Vec<RawFile>)
        requires
            self.wf(),
        ensures
            r@.len() == self.file_count(),
            forall|j: int|
                0 <= j < r@.len() ==> {
                    let f = self.stored_file(j);
                    &&& (#[trigger] r@[j]).id == f.id
                    &&& r@[j].data@ == f.data@
                    &&& r@[j].hint@ == f.hint@ + vstd::bytes::spec_u32_to_le_bytes(
                        crate::checksum::xxhash32_of(f.hint@),
                    )
                },
            forall|i: int, j: int| 0 <= i < j < r@.len() ==> r@[i].id < r@[j].id,
            forall|j: int| 0 <= j < r@.len() ==> spec_valid_trailer(#[trigger] r@[j].hint@),
            self.files_ok() ==> forall|j: int|
                0 <= j < r@.len() ==> spec_good_raw_file(#[trigger] r@[j]),
    {
        let n = self.lsm.store.len();
        let mut r: Vec<RawFile> = Vec::new();
        let mut i: usize = 0;
        while i < n
            invariant
                self.wf(),
                n == self.lsm.store@.len(),
                i <= n,
                r@.len() == i,
                forall|j: int|
                    0 <= j < i ==> {
                        let f = self.lsm.store@[j];
                        &&& (#[trigger] r@[j]).id == f.id
                        &&& r@[j].data@ == f.data@
                        &&& r@[j].hint@ == f.hint@ + vstd::bytes::spec_u32_to_le_bytes(
                            crate::checksum::xxhash32_of(f.hint@),
                        )
                    },
                forall|j: int| 0 <= j < i ==> spec_valid_trailer(#[trigger] r@[j].hint@),
                self.files_ok() ==> forall|j: int|
                    0 <= j < i ==> spec_good_raw_file(#[trigger] r@[j]),
            decreases n - i,
        {
            let mut data: Vec<u8> = Vec::new();
            data.extend_from_slice(self.lsm.store[i].data.as_slice());
            let mut hint: Vec<u8> = Vec::new();
            hint.extend_from_slice(self.lsm.store[i].hint.as_slice());
            let sum = crate::checksum::xxhash32(hint.as_slice());
            let ghost body = hint@;
            let mut trailer = vstd::bytes::u32_to_le_bytes(sum);
            hint.append(&mut trailer);
            proof {
                assert(hint@.subrange(0, hint@.len() - 4) =~= body);
                assert(hint@.subrange(hint@.len() - 4, hint@.len() as int)
                    =~= vstd::bytes::spec_u32_to_le_bytes(sum));
                assert(data@ =~= self.lsm.store@[i as int].data@);
                assert(body =~= self.lsm.store@[i as int].hint@);
                assert(hint@ =~= self.lsm.store@[i as int].hint@
                    + vstd::bytes::spec_u32_to_le_bytes(
                    crate::checksum::xxhash32_of(self.lsm.store@[i as int].hint@),
                ));
                if self.files_ok() {
                    self.lsm.lemma_file_lookup();
                    let id = self.lsm.store@[i as int].id;
                    assert(self.lsm.has_file(id));
                    assert(self.lsm.file_index(id) == i as int);
                    assert(spec_file_stream_ok(
                        self.lsm.file_data(id),
                        self.lsm.file_hint(id),
                        self.current_seq,
                    ));
                    assert(data@ == self.lsm.file_data(id));
                    assert(body == self.lsm.file_hint(id));
                    assert forall|j: int|
                        0 <= j < spec_scan(data@).len() implies wf_log(
                        (#[trigger] spec_scan(data@)[j]).1,
                    ) && spec_scan(data@)[j].1.seq < u64::MAX by {}
                }
            }
            r.push(RawFile { id: self.lsm.store[i].id, data, hint });
            i = i + 1;
        }
        r
    }
}

/// One live hint of a fresh compaction output, judged against the index map
/// `m` and the observable map `view` at the start of the pass: it names a
/// key the index held, at that entry's sequence number, and it points at a
/// record on a scan boundary of the fresh file that carries exactly that
/// key, the value the store read for it, and the entry's size.
pub open spec fn spec_copy_hint_ok(
    lsm: Lsm,
    m: Map<Seq<u8>, MemIdxEntry>,
    view: Map<Seq<u8>, Seq<u8>>,
    nf: u32,
    h: HintView,
) -> bool {
    let d = lsm.file_data(nf);
    let p = h.log_pos as int;
    &&& m.contains_key(h.key)
    &&& h.seq == m[h.key].seq
    &&& spec_log_valid(d, p)
    &&& spec_log_at(d, p) == (LogView {
        key: h.key,
        value: view[h.key],
        seq: h.seq,
        deleted: false,
    })
    &&& spec_log_total_at(d, p) == m[h.key].size
    &&& LOG_STATIC_SIZE + h.key.len() + h.value_size as int == m[h.key].size
    &&& exists|j: int| 0 <= j < spec_scan(d).len() && (#[trigger] spec_scan(d)[j]).0 == p
}

/// Every hint of one fresh output file is either a faithful copy of a live
/// indexed record or a tombstone for a key absent from the index, all with
/// sequence numbers below `bound`.
pub open spec fn spec_fresh_file_ok(
    lsm: Lsm,
    m: Map<Seq<u8>, MemIdxEntry>,
    view: Map<Seq<u8>, Seq<u8>>,
    nf: u32,
    bound: u64,
) -> bool {
    &&& lsm.has_file(nf)
    &&& spec_parse_hints(lsm.file_hint(nf)) is Some
    &&& forall|t: int|
        0 <= t < spec_parse_hints(lsm.file_hint(nf))->Some_0.len() ==> {
            let h = #[trigger] spec_parse_hints(lsm.file_hint(nf))->Some_0[t];
            &&& h.seq < bound
            &&& (h.deleted ==> !m.contains_key(h.key))
            &&& (!h.deleted ==> spec_copy_hint_ok(lsm, m, view, nf, h))
        }
}

/// This fresh file's hint stream carries a live copy of key `k`.
pub open spec fn spec_file_copies_key(lsm: Lsm, nf: u32, k: Seq<u8>) -> bool {
    &&& spec_parse_hints(lsm.file_hint(nf)) is Some
    &&& exists|t: int|
        0 <= t < spec_parse_hints(lsm.file_hint(nf))->Some_0.len() && (#[trigger] spec_parse_hints(
            lsm.file_hint(nf),
        )->Some_0[t]).key == k && !spec_parse_hints(lsm.file_hint(nf))->Some_0[t].deleted
}

/// Some file of the `news` list carries a live copy of key `k`.
pub open spec fn spec_copied_key(lsm: Lsm, news: Seq<u32>, k: Seq<u8>) -> bool {
    exists|j: int| 0 <= j < news.len() && spec_file_copies_key(lsm, #[trigger] news[j], k)
}

/// The engine appended exactly this record through its active-file append
/// path: some (file id, offset) pair witnesses the append effect, and that
/// file became (or stayed) the active one.
pub closed spec fn spec_wrote_record(pre: CrabeDB, post: CrabeDB, l: LogView) -> bool {
    exists|p: (u32, u64)|
        #[trigger] spec_append_effect(pre.lsm, post.lsm, pre.lsm.active_file_id, l, Ok(p))
            && post.lsm.active_file_id == Some(p.0)
}

/// Whether the statistics of one non-active file pull the compaction
/// trigger: its fragmentation or its dead bytes reach the trigger bounds.
pub open spec fn spec_triggering_file(
    stats: Map<u32, AnalysisCounters>,
    options: StorageOptions,
    active: Option<u32>,
    id: u32,
) -> bool {
    &&& stats.contains_key(id)
    &&& active != Some(id)
    &&& (crate::index::spec_frag_permille(stats[id]) >= options.fragmentation_trigger
        || stats[id].dead_bytes >= options.dead_bytes_trigger)
}

/// Whether any file pulls the trigger: without one, no pass runs.
pub open spec fn spec_trigger_met(
    stats: Map<u32, AnalysisCounters>,
    options: StorageOptions,
    active: Option<u32>,
) -> bool {
    exists|id: u32| #[trigger] spec_triggering_file(stats, options, active, id)
}

impl CrabeDB {
    /// One write through the compaction writer, seen from the fresh-file
    /// side: every fresh file written so far keeps its faithful stream, the
    /// file the record landed in gains exactly the new record's hint, and
    /// keys already copied keep their witnesses.
    proof fn lemma_copy_write(
        self,
        base: CrabeDB,
        pre_lsm: Lsm,
        current: Option<u32>,
        l: LogView,
        p: (u32, u64),
        news: Seq<u32>,
    )
        requires
            base.wf(),
            pre_lsm.wf(),
            self.lsm.wf(),
            spec_append_effect(pre_lsm, self.lsm, current, l, Ok(p)),
            wf_log(l),
            l.seq < base.seq_no(),
            match current {
                Some(id) => pre_lsm.has_file(id) && news.contains(id) && spec_scan_complete(
                    pre_lsm.file_data(id),
                ),
                None => true,
            },
            forall|j: int|
                0 <= j < news.len() ==> spec_fresh_file_ok(
                    pre_lsm,
                    base.index_map(),
                    base@,
                    #[trigger] news[j],
                    base.seq_no(),
                ),
            l.deleted ==> !base.index_map().contains_key(l.key),
            !l.deleted ==> base.index_map().contains_key(l.key) && base.index_map()[l.key].seq
                == l.seq && l.value == base@[l.key] && LOG_STATIC_SIZE + l.key.len()
                + l.value.len() == base.index_map()[l.key].size as int,
        ensures
            forall|j: int|
                0 <= j < news.len() ==> spec_fresh_file_ok(
                    self.lsm,
                    base.index_map(),
                    base@,
                    #[trigger] news[j],
                    base.seq_no(),
                ),
            spec_fresh_file_ok(self.lsm, base.index_map(), base@, p.0, base.seq_no()),
            forall|k: Seq<u8>|
                #[trigger] spec_copied_key(pre_lsm, news, k) ==> spec_copied_key(
                    self.lsm,
                    news,
                    k,
                ),
            !l.deleted ==> spec_file_copies_key(self.lsm, p.0, l.key),
    {
        let m = base.index_map();
        let view = base@;
        let bound = base.seq_no();
        let enc = spec_log_encoding(l);
        lemma_log_encoding_len(l);
        let rotated = spec_rotate_needed(pre_lsm, current, spec_log_size(l));
        if rotated {
            let nid = p.0;
            let d = self.lsm.file_data(nid);
            assert(d == enc);
            assert(spec_scan_end_from(Seq::<u8>::empty(), 0) == 0);
            assert(spec_scan_complete(Seq::<u8>::empty()));
            lemma_hints_of_scan_extend(Seq::empty(), enc, l);
            assert(Seq::<u8>::empty() + enc =~= enc);
            assert(spec_scan(d) == Seq::<(int, LogView)>::empty() + seq![(0int, l)]);
            assert(spec_scan(d) =~= seq![(0int, l)]);
            lemma_scan_item(d, 0, 0);
            let h = spec_hint_of(0, l);
            assert(wf_hint(h));
            assert(spec_parse_hints(Seq::<u8>::empty()) == Some(Seq::<HintView>::empty()));
            lemma_parse_hints_from_extend(Seq::empty(), spec_hint_encoding(h), h, 0);
            assert(Seq::<u8>::empty() + spec_hint_encoding(h) =~= spec_hint_encoding(h));
            assert(self.lsm.file_hint(nid) == spec_hint_encoding(h));
            assert(Seq::<HintView>::empty() + seq![h] =~= seq![h]);
            assert(spec_parse_hints(self.lsm.file_hint(nid)) == Some(seq![h]));
            if !l.deleted {
                assert(spec_copy_hint_ok(self.lsm, m, view, nid, h)) by {
                    assert(spec_scan(d)[0].0 == h.log_pos as int);
                }
                assert(spec_parse_hints(self.lsm.file_hint(nid))->Some_0[0] == h);
                assert(spec_file_copies_key(self.lsm, nid, l.key));
            }
            assert(spec_fresh_file_ok(self.lsm, m, view, nid, bound));
            assert forall|j: int| 0 <= j < news.len() implies spec_fresh_file_ok(
                self.lsm,
                m,
                view,
                #[trigger] news[j],
                bound,
            ) by {
                assert(pre_lsm.has_file(news[j]));
                assert(self.lsm.file_data(news[j]) == pre_lsm.file_data(news[j]));
                assert(self.lsm.file_hint(news[j]) == pre_lsm.file_hint(news[j]));
            }
            assert forall|k: Seq<u8>| #[trigger]
                spec_copied_key(pre_lsm, news, k) implies spec_copied_key(
                self.lsm,
                news,
                k,
            ) by {
                let j = choose|j: int|
                    0 <= j < news.len() && spec_file_copies_key(pre_lsm, news[j], k);
                assert(self.lsm.file_hint(news[j]) == pre_lsm.file_hint(news[j]));
                assert(spec_file_copies_key(self.lsm, news[j], k));
            }
        } else {
            let cid = current->Some_0;
            let d = pre_lsm.file_data(cid);
            let pos = d.len();
            let d2 = self.lsm.file_data(cid);
            assert(d2 == d + enc);
            lemma_hints_of_scan_extend(d, enc, l);
            let h = spec_hint_of((pos as int) as u64, l);
            assert(wf_hint(h));
            assert(spec_parse_hints(pre_lsm.file_hint(cid)) is Some);
            lemma_parse_hints_from_extend(
                pre_lsm.file_hint(cid),
                spec_hint_encoding(h),
                h,
                0,
            );
            assert(spec_hint_of(pos as u64, l) == h);
            assert(self.lsm.file_hint(cid) == pre_lsm.file_hint(cid) + spec_hint_encoding(h));
            let old_stream = spec_parse_hints(pre_lsm.file_hint(cid))->Some_0;
            let new_stream = spec_parse_hints(self.lsm.file_hint(cid))->Some_0;
            assert(new_stream == old_stream + seq![h]);
            let item = (d.len() as int, l);
            assert(spec_scan(d2) == spec_scan(d) + seq![item]);
            lemma_scan_item(d2, 0, spec_scan(d).len() as int);
            assert(spec_scan(d2)[spec_scan(d).len() as int] == item);
            if !l.deleted {
                assert(spec_copy_hint_ok(self.lsm, m, view, cid, h)) by {
                    assert(spec_log_valid(d2, item.0));
                    assert(spec_log_at(d2, item.0) == l);
                    assert(spec_log_total_at(d2, item.0) == spec_log_size(l));
                    assert(h.log_pos as int == item.0);
                    assert(spec_scan(d2)[spec_scan(d).len() as int].0 == item.0);
                }
            }
            assert forall|j: int| 0 <= j < news.len() implies spec_fresh_file_ok(
                self.lsm,
                m,
                view,
                #[trigger] news[j],
                bound,
            ) by {
                let nf = news[j];
                assert(pre_lsm.has_file(nf));
                if nf != cid {
                    assert(self.lsm.file_data(nf) == pre_lsm.file_data(nf));
                    assert(self.lsm.file_hint(nf) == pre_lsm.file_hint(nf));
                } else {
                    assert(spec_fresh_file_ok(pre_lsm, m, view, cid, bound));
                    assert forall|t: int|
                        0 <= t < new_stream.len() implies {
                        let h2 = #[trigger] new_stream[t];
                        &&& h2.seq < bound
                        &&& (h2.deleted ==> !m.contains_key(h2.key))
                        &&& (!h2.deleted ==> spec_copy_hint_ok(self.lsm, m, view, cid, h2))
                    } by {
                        if t < old_stream.len() {
                            assert(new_stream[t] == old_stream[t]);
                            let h2 = old_stream[t];
                            if !h2.deleted {
                                assert(spec_copy_hint_ok(pre_lsm, m, view, cid, h2));
                                lemma_log_prefix_stable(d, enc, h2.log_pos as int);
                                let w = choose|w: int|
                                    0 <= w < spec_scan(d).len() && (#[trigger] spec_scan(
                                        d,
                                    )[w]).0 == h2.log_pos as int;
                                assert(spec_scan(d2)[w] == spec_scan(d)[w]);
                                assert(spec_scan(d2)[w].0 == h2.log_pos as int);
                            }
                        } else {
                            assert(new_stream[t] == h);
                        }
                    }
                }
            }
            assert forall|k: Seq<u8>| #[trigger]
                spec_copied_key(pre_lsm, news, k) implies spec_copied_key(
                self.lsm,
                news,
                k,
            ) by {
                let j = choose|j: int|
                    0 <= j < news.len() && spec_file_copies_key(pre_lsm, news[j], k);
                let nf = news[j];
                if nf != cid {
                    assert(self.lsm.file_hint(nf) == pre_lsm.file_hint(nf));
                    assert(spec_file_copies_key(self.lsm, nf, k));
                } else {
                    let t = choose|t: int|
                        0 <= t < old_stream.len() && (#[trigger] old_stream[t]).key == k
                            && !old_stream[t].deleted;
                    assert(new_stream[t] == old_stream[t]);
                    assert(spec_file_copies_key(self.lsm, cid, k));
                }
            }
            if !l.deleted {
                assert(new_stream[new_stream.len() - 1] == h);
                assert(spec_file_copies_key(self.lsm, cid, l.key));
            }
            assert(spec_fresh_file_ok(self.lsm, m, view, p.0, bound));
        }
    }

    /// The scan-and-copy phase of one compaction pass: walk the hint streams
    /// of the selected files, schedule for copying every hint that points at
    /// the record its key's index entry holds (same sequence number, same
    /// location), accumulate the newest tombstone of each key deleted in the
    /// selected set but absent from the index, then write the copies and the
    /// tombstones through a fresh writer. Returns the files actually
    /// compacted and the output files.
    fn compact_files_util(&mut self, files: &[u32]) -> (r: Result<(Vec<u32>, Vec<u32>), Error>)
        requires
            old(self).wf(),
        ensures
            final(self).wf(),
            final(self).seq_no() == old(self).seq_no(),
            final(self).spec_options() == old(self).spec_options(),
            final(self).active_file_id() == old(self).active_file_id(),
            final(self).index_map() == old(self).index_map(),
            forall|id: u32|
                #[trigger] old(self).has_data_file(id) ==> final(self).has_data_file(id),
            old(self).consistent() ==> final(self)@ == old(self)@ && final(self).consistent(),
            old(self).files_ok() ==> final(self).files_ok(),
            old(self).consistent() && old(self).files_ok() ==> (r is Err ==> r->Err_0 is Io),
            r matches Ok(p) ==> ({
                &&& forall|j: int|
                    0 <= j < p.0@.len() ==> old(self).active_file_id() != Some(
                        #[trigger] p.0@[j],
                    ) && final(self).has_data_file(p.0@[j]) && p.0@[j] <= old(
                        self,
                    ).lsm.file_id_seq@
                &&& forall|j: int|
                    0 <= j < p.1@.len() ==> old(self).active_file_id() != Some(#[trigger] p.1@[j])
                        && p.1@[j] > old(self).lsm.file_id_seq@
                &&& (old(self).files_ok() ==> forall|j: int|
                    0 <= j < files@.len() ==> ((old(self).lsm.has_file(#[trigger] files@[j])
                        && old(self).active_file_id() != Some(files@[j])) ==> p.0@.contains(
                        files@[j],
                    )))
                &&& (old(self).consistent() && old(self).files_ok() ==> {
                    &&& forall|j: int|
                        0 <= j < p.1@.len() ==> spec_fresh_file_ok(
                            final(self).lsm,
                            old(self).index_map(),
                            old(self)@,
                            #[trigger] p.1@[j],
                            old(self).seq_no(),
                        )
                    &&& forall|k: Seq<u8>|
                        (#[trigger] old(self).index_map().contains_key(k) && p.0@.contains(
                            old(self).index_map()[k].file_id,
                        )) ==> spec_copied_key(final(self).lsm, p.1@, k)
                })
            }),
    {
        let ghost well = old(self).consistent() && old(self).files_ok();
        let active = self.lsm.active_file_id;
        let start_seq = self.lsm.file_id_seq.value();
        let mut writer = self.lsm.writer();
        let mut compacted: Vec<u32> = Vec::new();
        let mut new_files: Vec<u32> = Vec::new();
        let mut deletes: Vec<(Vec<u8>, u64)> = Vec::new();
        let n = files.len();
        let mut i: usize = 0;
        while i < n
            invariant
                old(self).wf(),
                self.wf(),
                self.idx == old(self).idx,
                self.current_seq == old(self).current_seq,
                self.options == old(self).options,
                self.lsm.active_file_id == active,
                active == old(self).active_file_id(),
                self.lsm.file_id_seq@ >= old(self).lsm.file_id_seq@,
                forall|id: u32| #[trigger] old(self).lsm.has_file(id) ==> self.lsm.has_file(id),
                forall|id: u32|
                    id <= old(self).lsm.file_id_seq@ && #[trigger] self.lsm.has_file(id) ==> old(
                        self,
                    ).lsm.has_file(id) && self.lsm.file_data(id) == old(self).lsm.file_data(id)
                        && self.lsm.file_hint(id) == old(self).lsm.file_hint(id),
                match writer.current_file_id {
                    Some(id) => self.lsm.has_file(id) && active != Some(id) && id > old(
                        self,
                    ).lsm.file_id_seq@,
                    None => true,
                },
                n == files@.len(),
                i <= n,
                start_seq == old(self).lsm.file_id_seq@,
                forall|j: int|
                    0 <= j < compacted@.len() ==> active != Some(#[trigger] compacted@[j])
                        && self.lsm.has_file(compacted@[j]) && compacted@[j] <= old(
                        self,
                    ).lsm.file_id_seq@,
                forall|j: int|
                    0 <= j < new_files@.len() ==> active != Some(#[trigger] new_files@[j])
                        && new_files@[j] > old(self).lsm.file_id_seq@,
                forall|j: int|
                    0 <= j < deletes@.len() ==> 1 <= (#[trigger] deletes@[j]).0@.len() <= 0xffff,
                well ==> forall|u: int|
                    0 <= u < deletes@.len() ==> !old(self).index_map().contains_key(
                        (#[trigger] deletes@[u]).0@,
                    ),
                well ==> forall|u: int|
                    0 <= u < deletes@.len() ==> (#[trigger] deletes@[u]).1 < old(self).seq_no(),
                old(self).files_ok() ==> self.files_ok(),
                old(self).consistent() ==> self@ == old(self)@ && spec_entries_ok(
                    self.lsm,
                    self.idx@,
                ),
                old(self).files_ok() ==> forall|j: int|
                    0 <= j < i ==> ((old(self).lsm.has_file(#[trigger] files@[j]) && active
                        != Some(files@[j])) ==> compacted@.contains(files@[j])),
                well == (old(self).consistent() && old(self).files_ok()),
                match writer.current_file_id {
                    Some(id) => new_files@.contains(id),
                    None => true,
                },
                well ==> forall|j: int|
                    0 <= j < new_files@.len() ==> spec_fresh_file_ok(
                        self.lsm,
                        old(self).index_map(),
                        old(self)@,
                        #[trigger] new_files@[j],
                        old(self).seq_no(),
                    ),
                well ==> forall|k: Seq<u8>|
                    (#[trigger] old(self).index_map().contains_key(k) && compacted@.contains(
                        old(self).index_map()[k].file_id,
                    )) ==> spec_copied_key(self.lsm, new_files@, k),
            decreases n - i,
        {
            let file_id = files[i];
            let ghost pre_compacted = compacted@;
            // Only files that existed when the pass began take part; fresh
            // output ids can never be re-read as sources.
            let skip = file_id > start_seq || match active {
                Some(id) => id == file_id,
                None => false,
            };
            if !skip {
                let hints = match self.lsm.compaction_hints(file_id) {
                    Ok(Some(h)) => Some(h),
                    Ok(None) => None,
                    Err(_) => None,
                };
                match hints {
                    Some(hints) => {
                        let ghost dsrc = self.lsm.file_data(file_id);
                        let ghost stream = spec_hints_of_scan(dsrc);
                        proof {
                            if well {
                                assert(self.lsm.has_file(file_id));
                                assert(spec_file_stream_ok(
                                    dsrc,
                                    self.lsm.file_hint(file_id),
                                    self.current_seq,
                                ));
                                assert(spec_parse_hints(self.lsm.file_hint(file_id)) == Some(
                                    stream,
                                ));
                            }
                        }
                        let mut inserts: Vec<CompactionHint> = Vec::new();
                        let m = hints.len();
                        let mut t: usize = 0;
                        while t < m
                            invariant
                                self.wf(),
                                self.idx == old(self).idx,
                                well == (old(self).consistent() && old(self).files_ok()),
                                old(self).wf(),
                                dsrc == self.lsm.file_data(file_id),
                                stream == spec_hints_of_scan(dsrc),
                                well ==> (old(self).lsm.has_file(file_id) ==> dsrc == old(
                                    self,
                                ).lsm.file_data(file_id)),
                                well ==> spec_file_stream_ok(
                                    dsrc,
                                    self.lsm.file_hint(file_id),
                                    old(self).seq_no(),
                                ),
                                well ==> spec_entries_ok(old(self).lsm, old(self).index_map()),
                                m == hints@.len(),
                                t <= m,
                                forall|j: int|
                                    0 <= j < m ==> (#[trigger] hints@[j])@.key.len() <= 0xffff,
                                well ==> (m == stream.len() && forall|j: int|
                                    0 <= j < m ==> (#[trigger] hints@[j])@ == stream[j]),
                                well ==> m == spec_scan(dsrc).len(),
                                forall|j: int|
                                    0 <= j < inserts@.len() ==> (#[trigger] inserts@[j])@.key.len()
                                        <= 0xffff,
                                well ==> forall|tb: int|
                                    0 <= tb < inserts@.len() ==> {
                                        let h = (#[trigger] inserts@[tb])@;
                                        &&& old(self).index_map().contains_key(h.key)
                                        &&& !h.deleted
                                        &&& old(self).index_map()[h.key].seq == h.seq
                                        &&& old(self).index_map()[h.key].file_id == file_id
                                        &&& old(self).index_map()[h.key].pos == h.log_pos
                                    },
                                well ==> forall|jb: int, k: Seq<u8>|
                                    (0 <= jb < t && #[trigger] old(self).index_map().contains_key(
                                        k,
                                    ) && old(self).index_map()[k].file_id == file_id && (
                                    #[trigger] spec_scan(dsrc)[jb]).0 == old(
                                        self,
                                    ).index_map()[k].pos as int) ==> exists|tb: int|
                                        0 <= tb < inserts@.len() && (#[trigger] inserts@[tb])@.key
                                            == k,
                                forall|j: int|
                                    0 <= j < deletes@.len() ==> 1 <= (#[trigger] deletes@[j]).0@.len()
                                        <= 0xffff,
                                well ==> forall|u: int|
                                    0 <= u < deletes@.len() ==> !old(
                                        self,
                                    ).index_map().contains_key((#[trigger] deletes@[u]).0@),
                                well ==> forall|u: int|
                                    0 <= u < deletes@.len() ==> (#[trigger] deletes@[u]).1 < old(
                                        self,
                                    ).seq_no(),
                            decreases m - t,
                        {
                            let ghost inserts0 = inserts@;
                            proof {
                                if well {
                                    assert(hints@[t as int]@ == stream[t as int]);
                                    assert(spec_hints_of_scan(dsrc)[t as int] == spec_hint_of(
                                        spec_scan(dsrc)[t as int].0 as u64,
                                        spec_scan(dsrc)[t as int].1,
                                    ));
                                    assert(stream[t as int] == spec_hint_of(
                                        spec_scan(dsrc)[t as int].0 as u64,
                                        spec_scan(dsrc)[t as int].1,
                                    ));
                                    lemma_scan_item(dsrc, 0, t as int);
                                    assert(hints@[t as int]@.seq == spec_scan(
                                        dsrc,
                                    )[t as int].1.seq);
                                    assert(hints@[t as int]@.seq < old(self).seq_no());
                                }
                            }
                            let ch = &hints[t];
                            let found = self.idx.get(ch.key.as_slice());
                            if ch.deleted {
                                if found.is_none() && ch.key.len() >= 1 {
                                    // Keep only the newest tombstone per key.
                                    let mut merged = false;
                                    let dn = deletes.len();
                                    let mut u: usize = 0;
                                    while u < dn
                                        invariant
                                            dn == deletes@.len(),
                                            u <= dn,
                                            well == (old(self).consistent() && old(
                                                self,
                                            ).files_ok()),
                                            well ==> ch@.seq < old(self).seq_no(),
                                            forall|j: int|
                                                0 <= j < deletes@.len() ==> 1 <= (
                                                #[trigger] deletes@[j]).0@.len() <= 0xffff,
                                            well ==> forall|ub: int|
                                                0 <= ub < deletes@.len() ==> !old(
                                                    self,
                                                ).index_map().contains_key(
                                                    (#[trigger] deletes@[ub]).0@,
                                                ),
                                            well ==> forall|ub: int|
                                                0 <= ub < deletes@.len() ==> (
                                                #[trigger] deletes@[ub]).1 < old(self).seq_no(),
                                            merged ==> deletes@.len() == dn,
                                        decreases dn - u,
                                    {
                                        if crate::util::bytes_eq(
                                            deletes[u].0.as_slice(),
                                            ch.key.as_slice(),
                                        ) {
                                            if deletes[u].1 < ch.seq {
                                                let k2 = slice_to_vec(deletes[u].0.as_slice());
                                                deletes[u] = (k2, ch.seq);
                                            }
                                            merged = true;
                                            break;
                                        }
                                        u = u + 1;
                                    }
                                    if !merged {
                                        deletes.push((slice_to_vec(ch.key.as_slice()), ch.seq));
                                    }
                                }
                            } else {
                                match found {
                                    Some(e) => {
                                        if e.seq == ch.seq && e.file_id == file_id && e.pos
                                            == ch.log_pos {
                                            inserts.push(
                                                CompactionHint {
                                                    key: slice_to_vec(ch.key.as_slice()),
                                                    log_pos: ch.log_pos,
                                                    value_size: ch.value_size,
                                                    seq: ch.seq,
                                                    deleted: ch.deleted,
                                                },
                                            );
                                        }
                                    },
                                    None => {},
                                }
                            }
                            proof {
                                if well {
                                    let m0 = old(self).index_map();
                                    assert forall|jb: int, k: Seq<u8>|
                                        (0 <= jb < t + 1 && #[trigger] m0.contains_key(k)
                                            && m0[k].file_id == file_id && (#[trigger] spec_scan(
                                            dsrc,
                                        )[jb]).0 == m0[k].pos as int) implies exists|tb: int|
                                        0 <= tb < inserts@.len() && (#[trigger] inserts@[tb])@.key
                                            == k by {
                                        if jb < t {
                                            assert(exists|tb: int|
                                                0 <= tb < inserts0.len() && (
                                                #[trigger] inserts0[tb])@.key == k);
                                            let tb = choose|tb: int|
                                                0 <= tb < inserts0.len() && (
                                                #[trigger] inserts0[tb])@.key == k;
                                            assert(inserts@[tb]@.key == k);
                                        } else {
                                            assert(spec_entry_ok(old(self).lsm, m0, k));
                                            let e = m0[k];
                                            assert(old(self).lsm.has_file(file_id));
                                            assert(dsrc == old(self).lsm.file_data(file_id));
                                            lemma_scan_item(dsrc, 0, jb);
                                            assert(spec_scan(dsrc)[jb].1 == spec_log_at(
                                                dsrc,
                                                e.pos as int,
                                            ));
                                            assert(spec_scan(dsrc)[jb].1.key == k);
                                            assert(hints@[t as int]@.key == k);
                                            assert(hints@[t as int]@.seq == e.seq);
                                            assert(hints@[t as int]@.log_pos == e.pos);
                                            assert(!hints@[t as int]@.deleted);
                                            assert(inserts@[inserts@.len() - 1]@.key == k);
                                        }
                                    }
                                }
                            }
                            t = t + 1;
                        }
                        // Copy every scheduled record forward.
                        let m2 = inserts.len();
                        let mut t2: usize = 0;
                        while t2 < m2
                            invariant
                                old(self).wf(),
                                self.wf(),
                                self.idx == old(self).idx,
                                self.current_seq == old(self).current_seq,
                                self.options == old(self).options,
                                self.lsm.active_file_id == active,
                                active == old(self).active_file_id(),
                                well == (old(self).consistent() && old(self).files_ok()),
                                well ==> forall|tb: int|
                                    0 <= tb < inserts@.len() ==> {
                                        let h = (#[trigger] inserts@[tb])@;
                                        &&& old(self).index_map().contains_key(h.key)
                                        &&& !h.deleted
                                        &&& old(self).index_map()[h.key].seq == h.seq
                                        &&& old(self).index_map()[h.key].file_id == file_id
                                        &&& old(self).index_map()[h.key].pos == h.log_pos
                                    },
                                well ==> (old(self).lsm.has_file(file_id) ==> dsrc == old(
                                    self,
                                ).lsm.file_data(file_id)),
                                well ==> forall|jb: int, k: Seq<u8>|
                                    (0 <= jb < spec_scan(dsrc).len() && #[trigger] old(
                                        self,
                                    ).index_map().contains_key(k) && old(
                                        self,
                                    ).index_map()[k].file_id == file_id && (#[trigger] spec_scan(
                                        dsrc,
                                    )[jb]).0 == old(self).index_map()[k].pos as int) ==> exists|
                                        tb: int,
                                    |
                                        0 <= tb < inserts@.len() && (#[trigger] inserts@[tb])@.key
                                            == k,
                                well ==> forall|j: int|
                                    0 <= j < new_files@.len() ==> spec_fresh_file_ok(
                                        self.lsm,
                                        old(self).index_map(),
                                        old(self)@,
                                        #[trigger] new_files@[j],
                                        old(self).seq_no(),
                                    ),
                                well ==> forall|k: Seq<u8>|
                                    (#[trigger] old(self).index_map().contains_key(k)
                                        && compacted@.contains(
                                        old(self).index_map()[k].file_id,
                                    )) ==> spec_copied_key(self.lsm, new_files@, k),
                                well ==> forall|t2b: int|
                                    0 <= t2b < t2 ==> spec_copied_key(
                                        self.lsm,
                                        new_files@,
                                        (#[trigger] inserts@[t2b])@.key,
                                    ),
                                well ==> forall|u: int|
                                    0 <= u < deletes@.len() ==> !old(self).index_map().contains_key(
                                        (#[trigger] deletes@[u]).0@,
                                    ),
                                well ==> forall|u: int|
                                    0 <= u < deletes@.len() ==> (#[trigger] deletes@[u]).1 < old(
                                        self,
                                    ).seq_no(),
                                self.lsm.file_id_seq@ >= old(self).lsm.file_id_seq@,
                                forall|id: u32|
                                    #[trigger] old(self).lsm.has_file(id) ==> self.lsm.has_file(
                                        id,
                                    ),
                                forall|id: u32|
                                    id <= old(self).lsm.file_id_seq@ && #[trigger] self.lsm.has_file(
                                        id,
                                    ) ==> old(self).lsm.has_file(id) && self.lsm.file_data(id)
                                        == old(self).lsm.file_data(id) && self.lsm.file_hint(id)
                                        == old(self).lsm.file_hint(id),
                                match writer.current_file_id {
                                    Some(id) => self.lsm.has_file(id) && active != Some(id) && id
                                        > old(self).lsm.file_id_seq@ && new_files@.contains(id),
                                    None => true,
                                },
                                m2 == inserts@.len(),
                                t2 <= m2,
                                self.lsm.has_file(file_id),
                                file_id <= old(self).lsm.file_id_seq@,
                                forall|j: int|
                                    0 <= j < compacted@.len() ==> active != Some(
                                        #[trigger] compacted@[j],
                                    ) && self.lsm.has_file(compacted@[j]) && compacted@[j] <= old(
                                        self,
                                    ).lsm.file_id_seq@,
                                forall|j: int|
                                    0 <= j < new_files@.len() ==> active != Some(
                                        #[trigger] new_files@[j],
                                    ) && new_files@[j] > old(self).lsm.file_id_seq@,
                                forall|j: int|
                                    0 <= j < deletes@.len() ==> 1 <= (#[trigger] deletes@[j]).0@.len()
                                        <= 0xffff,
                                old(self).files_ok() ==> self.files_ok(),
                                old(self).consistent() ==> self@ == old(self)@ && spec_entries_ok(
                                    self.lsm,
                                    self.idx@,
                                ),
                            decreases m2 - t2,
                        {
                            proof {
                                if well {
                                    let m0 = old(self).index_map();
                                    let h = inserts@[t2 as int]@;
                                    let e = m0[h.key];
                                    assert(spec_entry_ok(old(self).lsm, m0, h.key));
                                    old(self).lsm.lemma_file_lookup();
                                    let wdx = old(self).lsm.file_index(e.file_id);
                                    assert(old(self).lsm.store@[wdx].id == e.file_id);
                                    assert(e.file_id <= old(self).lsm.file_id_seq@);
                                    assert(self.lsm.has_file(e.file_id));
                                    assert(self.lsm.file_data(e.file_id) == old(
                                        self,
                                    ).lsm.file_data(e.file_id));
                                }
                            }
                            let log = match self.lsm.read_log(file_id, inserts[t2].log_pos) {
                                Ok(l) => l,
                                Err(e) => {
                                    proof {
                                        if well {
                                            assert(false);
                                        }
                                    }
                                    return Err(e);
                                },
                            };
                            if log.key.len() == 0 || log.key.len() > MAX_KEY_SIZE as usize {
                                proof {
                                    if well {
                                        assert(false);
                                    }
                                }
                                return Err(Error::InvalidKeySize(log.key.len()));
                            }
                            if log.value.len() as u64 > MAX_VALUE_SIZE as u64 {
                                proof {
                                    if well {
                                        assert(false);
                                    }
                                }
                                return Err(Error::InvalidValueSize(log.value.len()));
                            }
                            if log.deleted && log.value.len() > 0 {
                                proof {
                                    if well {
                                        assert(false);
                                    }
                                }
                                return Err(Error::Io("tombstone with value bytes".to_owned()));
                            }
                            if log.seq >= self.current_seq {
                                // A record the engine itself wrote always lies
                                // below the counter; copying anything else
                                // forward would wreck its monotonicity.
                                return Err(
                                    Error::Io(
                                        "record sequence number beyond the counter".to_owned(),
                                    ),
                                );
                            }
                            let ghost pre_lsm = self.lsm;
                            let ghost pre_current = writer.current_file_id;
                            let ghost news0 = new_files@;
                            proof {
                                if well {
                                    let m0 = old(self).index_map();
                                    let h = inserts@[t2 as int]@;
                                    let e = m0[h.key];
                                    assert(spec_entry_ok(old(self).lsm, m0, h.key));
                                    old(self).lsm.lemma_file_lookup();
                                    let wdx = old(self).lsm.file_index(e.file_id);
                                    assert(old(self).lsm.store@[wdx].id == e.file_id);
                                    assert(e.file_id <= old(self).lsm.file_id_seq@);
                                    assert(pre_lsm.has_file(e.file_id));
                                    assert(pre_lsm.file_data(e.file_id) == old(
                                        self,
                                    ).lsm.file_data(e.file_id));
                                    assert(log@ == spec_log_at(
                                        old(self).lsm.file_data(e.file_id),
                                        e.pos as int,
                                    ));
                                    assert(log@.key == h.key && log@.seq == h.seq && !log@.deleted);
                                    assert(log@.value == old(self)@[h.key]);
                                    assert(LOG_STATIC_SIZE + log@.key.len() + log@.value.len()
                                        == e.size as int);
                                }
                            }
                            match writer.write(&mut self.lsm, &log) {
                                Ok(w) => {
                                    let ghost landed = match w {
                                        crate::lsm::LsmWrite::NewFile(id) => (id, 0u64),
                                        crate::lsm::LsmWrite::Wrote(pos) => (
                                            pre_current->Some_0,
                                            pos,
                                        ),
                                    };
                                    proof {
                                        self.lemma_write_preserves(
                                            *old(self),
                                            pre_lsm,
                                            pre_current,
                                            log@,
                                            landed,
                                            active,
                                        );
                                        if well {
                                            self.lemma_copy_write(
                                                *old(self),
                                                pre_lsm,
                                                pre_current,
                                                log@,
                                                landed,
                                                news0,
                                            );
                                        }
                                    }
                                    match w {
                                        crate::lsm::LsmWrite::NewFile(id) => {
                                            new_files.push(id);
                                        },
                                        crate::lsm::LsmWrite::Wrote(_) => {},
                                    }
                                    proof {
                                        assert forall|x: u32| news0.contains(
                                            x,
                                        ) implies new_files@.contains(x) by {
                                            let a = choose|a: int|
                                                0 <= a < news0.len() && news0[a] == x;
                                            assert(new_files@[a] == x);
                                        }
                                        if new_files@.len() > news0.len() {
                                            assert(new_files@[new_files@.len() - 1] == landed.0);
                                        }
                                        assert(new_files@.contains(landed.0));
                                        if well {
                                            assert forall|j: int|
                                                0 <= j < new_files@.len() implies spec_fresh_file_ok(
                                                self.lsm,
                                                old(self).index_map(),
                                                old(self)@,
                                                #[trigger] new_files@[j],
                                                old(self).seq_no(),
                                            ) by {
                                                if j < news0.len() {
                                                    assert(new_files@[j] == news0[j]);
                                                } else {
                                                    assert(new_files@[j] == landed.0);
                                                }
                                            }
                                            assert forall|k: Seq<u8>|
                                                #[trigger] spec_copied_key(
                                                    pre_lsm,
                                                    news0,
                                                    k,
                                                ) implies spec_copied_key(
                                                self.lsm,
                                                new_files@,
                                                k,
                                            ) by {
                                                assert(spec_copied_key(self.lsm, news0, k));
                                                let a = choose|a: int|
                                                    0 <= a < news0.len() && spec_file_copies_key(
                                                        self.lsm,
                                                        news0[a],
                                                        k,
                                                    );
                                                assert(new_files@[a] == news0[a]);
                                            }
                                            assert(spec_file_copies_key(
                                                self.lsm,
                                                landed.0,
                                                inserts@[t2 as int]@.key,
                                            ));
                                            assert(spec_copied_key(
                                                self.lsm,
                                                new_files@,
                                                inserts@[t2 as int]@.key,
                                            ));
                                        }
                                    }
                                },
                                Err(e) => {
                                    return Err(e);
                                },
                            };
                            t2 = t2 + 1;
                        }
                        compacted.push(file_id);
                        proof {
                            assert(compacted@[compacted@.len() - 1] == file_id);
                            assert(compacted@.contains(file_id));
                            assert forall|x: u32| pre_compacted.contains(
                                x,
                            ) implies compacted@.contains(x) by {
                                let a = choose|a: int|
                                    0 <= a < pre_compacted.len() && pre_compacted[a] == x;
                                assert(compacted@[a] == x);
                            }
                            if well {
                                let m0 = old(self).index_map();
                                assert forall|k: Seq<u8>|
                                    (#[trigger] m0.contains_key(k) && compacted@.contains(
                                        m0[k].file_id,
                                    )) implies spec_copied_key(self.lsm, new_files@, k) by {
                                    let e = m0[k];
                                    if e.file_id == file_id {
                                        assert(spec_entry_ok(old(self).lsm, m0, k));
                                        assert(old(self).lsm.has_file(file_id));
                                        assert(dsrc == old(self).lsm.file_data(file_id));
                                        let jb = choose|jb: int|
                                            0 <= jb < spec_scan(dsrc).len() && (#[trigger] spec_scan(
                                                dsrc,
                                            )[jb]).0 == e.pos as int;
                                        let tb = choose|tb: int|
                                            0 <= tb < inserts@.len() && (#[trigger] inserts@[tb])@.key
                                                == k;
                                        assert(spec_copied_key(
                                            self.lsm,
                                            new_files@,
                                            inserts@[tb]@.key,
                                        ));
                                    } else {
                                        assert(pre_compacted.contains(e.file_id) || e.file_id
                                            == file_id) by {
                                            let a = choose|a: int|
                                                0 <= a < compacted@.len() && compacted@[a]
                                                    == e.file_id;
                                            if a < pre_compacted.len() {
                                                assert(pre_compacted[a] == e.file_id);
                                            }
                                        }
                                    }
                                }
                            }
                        }
                    },
                    None => {
                        proof {
                            if old(self).files_ok() && old(self).lsm.has_file(file_id) && active
                                != Some(file_id) {
                                // A file of a well-formed store always has a
                                // parseable hint stream, so this branch is
                                // unreachable for it.
                                assert(self.lsm.has_file(file_id));
                                assert(spec_file_stream_ok(
                                    self.lsm.file_data(file_id),
                                    self.lsm.file_hint(file_id),
                                    self.current_seq,
                                ));
                                assert(false);
                            }
                        }
                    },
                }
            }
            proof {
                assert forall|x: u32| pre_compacted.contains(x) implies compacted@.contains(
                    x,
                ) by {
                    let a = choose|a: int|
                        0 <= a < pre_compacted.len() && pre_compacted[a] == x;
                    assert(compacted@[a] == x);
                }
            }
            i = i + 1;
        }
        // Re-issue the newest tombstone of every key deleted in the
        // compacted set and still absent from the index.
        let dn = deletes.len();
        let mut u: usize = 0;
        while u < dn
            invariant
                old(self).wf(),
                self.wf(),
                self.idx == old(self).idx,
                self.current_seq == old(self).current_seq,
                self.options == old(self).options,
                self.lsm.active_file_id == active,
                active == old(self).active_file_id(),
                self.lsm.file_id_seq@ >= old(self).lsm.file_id_seq@,
                forall|id: u32| #[trigger] old(self).lsm.has_file(id) ==> self.lsm.has_file(id),
                forall|id: u32|
                    id <= old(self).lsm.file_id_seq@ && #[trigger] self.lsm.has_file(id) ==> old(
                        self,
                    ).lsm.has_file(id) && self.lsm.file_data(id) == old(self).lsm.file_data(id)
                        && self.lsm.file_hint(id) == old(self).lsm.file_hint(id),
                match writer.current_file_id {
                    Some(id) => self.lsm.has_file(id) && active != Some(id) && id > old(
                        self,
                    ).lsm.file_id_seq@ && new_files@.contains(id),
                    None => true,
                },
                well == (old(self).consistent() && old(self).files_ok()),
                well ==> forall|j: int|
                    0 <= j < new_files@.len() ==> spec_fresh_file_ok(
                        self.lsm,
                        old(self).index_map(),
                        old(self)@,
                        #[trigger] new_files@[j],
                        old(self).seq_no(),
                    ),
                well ==> forall|k: Seq<u8>|
                    (#[trigger] old(self).index_map().contains_key(k) && compacted@.contains(
                        old(self).index_map()[k].file_id,
                    )) ==> spec_copied_key(self.lsm, new_files@, k),
                well ==> forall|ub: int|
                    0 <= ub < deletes@.len() ==> !old(self).index_map().contains_key(
                        (#[trigger] deletes@[ub]).0@,
                    ),
                well ==> forall|ub: int|
                    0 <= ub < deletes@.len() ==> (#[trigger] deletes@[ub]).1 < old(self).seq_no(),
                dn == deletes@.len(),
                u <= dn,
                forall|j: int|
                    0 <= j < compacted@.len() ==> active != Some(#[trigger] compacted@[j])
                        && self.lsm.has_file(compacted@[j]) && compacted@[j] <= old(
                        self,
                    ).lsm.file_id_seq@,
                forall|j: int|
                    0 <= j < new_files@.len() ==> active != Some(#[trigger] new_files@[j])
                        && new_files@[j] > old(self).lsm.file_id_seq@,
                forall|j: int|
                    0 <= j < deletes@.len() ==> 1 <= (#[trigger] deletes@[j]).0@.len() <= 0xffff,
                old(self).files_ok() ==> self.files_ok(),
                old(self).consistent() ==> self@ == old(self)@ && spec_entries_ok(
                    self.lsm,
                    self.idx@,
                ),
                old(self).files_ok() ==> forall|j: int|
                    0 <= j < files@.len() ==> ((old(self).lsm.has_file(#[trigger] files@[j])
                        && active != Some(files@[j])) ==> compacted@.contains(files@[j])),
            decreases dn - u,
        {
            let log = Log::deleted(deletes[u].1, slice_to_vec(deletes[u].0.as_slice()));
            if log.seq >= self.current_seq {
                proof {
                    if well {
                        assert(false);
                    }
                }
                return Err(Error::Io("record sequence number beyond the counter".to_owned()));
            }
            let ghost pre_lsm = self.lsm;
            let ghost pre_current = writer.current_file_id;
            let ghost news0 = new_files@;
            match writer.write(&mut self.lsm, &log) {
                Ok(w) => {
                    let ghost landed = match w {
                        crate::lsm::LsmWrite::NewFile(id) => (id, 0u64),
                        crate::lsm::LsmWrite::Wrote(pos) => (pre_current->Some_0, pos),
                    };
                    proof {
                        self.lemma_write_preserves(
                            *old(self),
                            pre_lsm,
                            pre_current,
                            log@,
                            landed,
                            active,
                        );
                        if well {
                            self.lemma_copy_write(
                                *old(self),
                                pre_lsm,
                                pre_current,
                                log@,
                                landed,
                                news0,
                            );
                        }
                    }
                    match w {
                        crate::lsm::LsmWrite::NewFile(id) => {
                            new_files.push(id);
                        },
                        crate::lsm::LsmWrite::Wrote(_) => {},
                    }
                    proof {
                        assert forall|x: u32| news0.contains(x) implies new_files@.contains(
                            x,
                        ) by {
                            let a = choose|a: int| 0 <= a < news0.len() && news0[a] == x;
                            assert(new_files@[a] == x);
                        }
                        if new_files@.len() > news0.len() {
                            assert(new_files@[new_files@.len() - 1] == landed.0);
                        }
                        assert(new_files@.contains(landed.0));
                        if well {
                            assert forall|j: int|
                                0 <= j < new_files@.len() implies spec_fresh_file_ok(
                                self.lsm,
                                old(self).index_map(),
                                old(self)@,
                                #[trigger] new_files@[j],
                                old(self).seq_no(),
                            ) by {
                                if j < news0.len() {
                                    assert(new_files@[j] == news0[j]);
                                } else {
                                    assert(new_files@[j] == landed.0);
                                }
                            }
                            assert forall|k: Seq<u8>|
                                #[trigger] spec_copied_key(pre_lsm, news0, k) implies spec_copied_key(
                                self.lsm,
                                new_files@,
                                k,
                            ) by {
                                assert(spec_copied_key(self.lsm, news0, k));
                                let a = choose|a: int|
                                    0 <= a < news0.len() && spec_file_copies_key(
                                        self.lsm,
                                        news0[a],
                                        k,
                                    );
                                assert(new_files@[a] == news0[a]);
                            }
                        }
                    }
                },
                Err(e) => {
                    return Err(e);
                },
            };
            u = u + 1;
        }
        Ok((compacted, new_files))
    }

    /// One write through the compaction writer, seen from the state `base`
    /// at the start of the pass: files of `base` survive untouched, the
    /// record lands above `base`'s id counter and away from the active file,
    /// and stream well-formedness, entry validity and the observable map all
    /// carry over.
    proof fn lemma_write_preserves(
        self,
        base: CrabeDB,
        pre_lsm: Lsm,
        current: Option<u32>,
        l: LogView,
        p: (u32, u64),
        active: Option<u32>,
    )
        requires
            base.wf(),
            self.idx == base.idx,
            self.current_seq == base.current_seq,
            active == base.lsm.active_file_id,
            pre_lsm.wf(),
            self.lsm.wf(),
            self.lsm.active_file_id == pre_lsm.active_file_id,
            spec_append_effect(pre_lsm, self.lsm, current, l, Ok(p)),
            wf_log(l),
            l.seq < self.current_seq,
            match current {
                Some(id) => pre_lsm.has_file(id) && id > base.lsm.file_id_seq@,
                None => true,
            },
            pre_lsm.file_id_seq@ >= base.lsm.file_id_seq@,
            forall|id: u32| #[trigger] base.lsm.has_file(id) ==> pre_lsm.has_file(id),
            forall|id: u32|
                id <= base.lsm.file_id_seq@ && #[trigger] pre_lsm.has_file(id)
                    ==> base.lsm.has_file(id) && pre_lsm.file_data(id) == base.lsm.file_data(id)
                    && pre_lsm.file_hint(id) == base.lsm.file_hint(id),
            base.files_ok() ==> forall|id: u32|
                #[trigger] pre_lsm.has_file(id) ==> spec_file_stream_ok(
                    pre_lsm.file_data(id),
                    pre_lsm.file_hint(id),
                    self.current_seq,
                ),
        ensures
            self.wf(),
            self.lsm.file_id_seq@ >= base.lsm.file_id_seq@,
            p.0 > base.lsm.file_id_seq@,
            active != Some(p.0),
            self.lsm.has_file(p.0),
            forall|id: u32| #[trigger] pre_lsm.has_file(id) ==> self.lsm.has_file(id),
            forall|id: u32| #[trigger] base.lsm.has_file(id) ==> self.lsm.has_file(id),
            forall|id: u32|
                id <= base.lsm.file_id_seq@ && #[trigger] self.lsm.has_file(id)
                    ==> base.lsm.has_file(id) && self.lsm.file_data(id) == base.lsm.file_data(id)
                    && self.lsm.file_hint(id) == base.lsm.file_hint(id),
            base.files_ok() ==> self.files_ok(),
            base.consistent() ==> self@ == base@ && spec_entries_ok(self.lsm, self.idx@),
    {
        let size = spec_log_size(l);
        let rotated = spec_rotate_needed(pre_lsm, current, size);
        if rotated {
            assert(p.0 == (pre_lsm.file_id_seq@ + 1) as u32);
        }
        match active {
            Some(aid) => {
                let w = base.lsm.file_index(aid);
                assert(0 <= w < base.lsm.store@.len() && base.lsm.store@[w].id == aid);
                assert(aid <= base.lsm.file_id_seq@);
            },
            None => {},
        }
        assert forall|id: u32| #[trigger] pre_lsm.has_file(id) implies self.lsm.has_file(id) by {}
        assert forall|id: u32|
            id <= base.lsm.file_id_seq@ && #[trigger] self.lsm.has_file(id) implies base.lsm.has_file(
            id,
        ) && self.lsm.file_data(id) == base.lsm.file_data(id) && self.lsm.file_hint(id)
            == base.lsm.file_hint(id) by {
            if rotated {
                assert(id != p.0);
                assert(pre_lsm.has_file(id));
            } else {
                assert(pre_lsm.has_file(id));
                assert(id != current->Some_0);
            }
        }
        if base.files_ok() {
            lemma_append_keeps_streams(
                pre_lsm,
                self.lsm,
                current,
                l,
                p,
                self.current_seq,
                self.current_seq,
            );
            assert(self.files_ok());
        }
        if base.consistent() {
            assert forall|k: Seq<u8>| #[trigger] self.idx@.contains_key(k) implies spec_entry_ok(
                self.lsm,
                self.idx@,
                k,
            ) by {
                assert(base.idx@.contains_key(k));
                assert(spec_entry_ok(base.lsm, base.idx@, k));
                let e = self.idx@[k];
                let w = base.lsm.file_index(e.file_id);
                assert(0 <= w < base.lsm.store@.len() && base.lsm.store@[w].id == e.file_id);
                assert(e.file_id <= base.lsm.file_id_seq@);
                assert(pre_lsm.has_file(e.file_id));
                assert(self.lsm.has_file(e.file_id));
                assert(self.lsm.file_data(e.file_id) == base.lsm.file_data(e.file_id));
            }
            assert forall|k: Seq<u8>| #![auto] self@.contains_key(k) == base@.contains_key(k) && (
            self@.contains_key(k) ==> self@[k] == base@[k]) by {
                if self.idx@.contains_key(k) {
                    let e = self.idx@[k];
                    let w = base.lsm.file_index(e.file_id);
                    assert(0 <= w < base.lsm.store@.len() && base.lsm.store@[w].id == e.file_id);
                    assert(e.file_id <= base.lsm.file_id_seq@);
                    assert(pre_lsm.has_file(e.file_id));
                    assert(self.lsm.has_file(e.file_id));
                    assert(self.lsm.file_data(e.file_id) == base.lsm.file_data(e.file_id));
                }
            }
            assert(self@ =~= base@);
        }
    }

    /// One full compaction of the given files: copy what lives, re-point the
    /// index through the hint streams of the output files, drop the
    /// statistics of the compacted files, and unlink them.
    fn compact_files(&mut self, files: &[u32]) -> (r: Result<(), Error>)
        requires
            old(self).wf(),
        ensures
            final(self).wf(),
            final(self).seq_no() == old(self).seq_no(),
            final(self).spec_options() == old(self).spec_options(),
            final(self).active_file_id() == old(self).active_file_id(),
            old(self).files_ok() ==> final(self).files_ok(),
            r is Err ==> forall|id: u32|
                #[trigger] old(self).has_data_file(id) ==> final(self).has_data_file(id),
            old(self).files_ok() ==> (r is Ok ==> forall|j: int|
                0 <= j < files@.len() ==> ((old(self).has_data_file(#[trigger] files@[j]) && old(
                    self,
                ).active_file_id() != Some(files@[j])) ==> !final(self).has_data_file(
                    files@[j],
                ))),
            old(self).consistent() && old(self).files_ok() ==> {
                &&& final(self)@ == old(self)@
                &&& final(self).consistent()
                &&& (r is Err ==> r->Err_0 is Io)
            },
    {
        let ghost well = old(self).consistent() && old(self).files_ok();
        let (compacted, new_files) = match self.compact_files_util(files) {
            Ok(p) => p,
            Err(e) => {
                return Err(e);
            },
        };
        let ghost mid = *self;
        let ghost active = self.active_file_id();
        let ghost m0 = old(self).index_map();
        let n = new_files.len();
        let mut i: usize = 0;
        while i < n
            invariant
                old(self).wf(),
                self.wf(),
                self.lsm == mid.lsm,
                self.current_seq == mid.current_seq,
                self.current_seq == old(self).current_seq,
                self.options == old(self).options,
                self.active_file_id() == active,
                active == old(self).active_file_id(),
                old(self).files_ok() ==> mid.files_ok(),
                forall|id: u32|
                    #[trigger] old(self).has_data_file(id) ==> mid.has_data_file(id),
                n == new_files@.len(),
                i <= n,
                well == (old(self).consistent() && old(self).files_ok()),
                m0 == old(self).index_map(),
                forall|j: int|
                    0 <= j < compacted@.len() ==> active != Some(#[trigger] compacted@[j])
                        && compacted@[j] <= old(self).lsm.file_id_seq@,
                forall|j: int|
                    0 <= j < new_files@.len() ==> #[trigger] new_files@[j] > old(
                        self,
                    ).lsm.file_id_seq@,
                well ==> forall|j: int|
                    0 <= j < new_files@.len() ==> spec_fresh_file_ok(
                        self.lsm,
                        m0,
                        old(self)@,
                        #[trigger] new_files@[j],
                        old(self).seq_no(),
                    ),
                well ==> forall|k: Seq<u8>|
                    (#[trigger] m0.contains_key(k) && compacted@.contains(m0[k].file_id))
                        ==> spec_copied_key(self.lsm, new_files@, k),
                well ==> forall|k: Seq<u8>|
                    #[trigger] self.idx@.contains_key(k) <==> m0.contains_key(k),
                well ==> forall|k: Seq<u8>|
                    #[trigger] self.idx@.contains_key(k) ==> (self.idx@[k].seq == m0[k].seq && (
                    self.idx@[k] == m0[k] || new_files@.contains(self.idx@[k].file_id))),
                well ==> spec_entries_ok(self.lsm, self.idx@),
                well ==> self@ == old(self)@,
                well ==> forall|jj: int, tt: int|
                    (0 <= jj < i && 0 <= tt < spec_parse_hints(
                        self.lsm.file_hint(new_files@[jj]),
                    )->Some_0.len() && !(#[trigger] spec_parse_hints(
                        self.lsm.file_hint(new_files@[jj]),
                    )->Some_0[tt]).deleted) ==> (self.idx@.contains_key(
                        spec_parse_hints(self.lsm.file_hint(new_files@[jj]))->Some_0[tt].key,
                    ) && new_files@.contains(
                        self.idx@[spec_parse_hints(
                            self.lsm.file_hint(new_files@[jj]),
                        )->Some_0[tt].key].file_id,
                    )),
            decreases n - i,
        {
            let nf = new_files[i];
            let hints_opt = match self.lsm.compaction_hints(nf) {
                Ok(Some(h)) => Some(h),
                Ok(None) => {
                    proof {
                        if well {
                            assert(spec_fresh_file_ok(
                                self.lsm,
                                m0,
                                old(self)@,
                                nf,
                                old(self).seq_no(),
                            ));
                            assert(false);
                        }
                    }
                    None
                },
                Err(e) => {
                    proof {
                        if well {
                            assert(spec_fresh_file_ok(
                                self.lsm,
                                m0,
                                old(self)@,
                                nf,
                                old(self).seq_no(),
                            ));
                            assert(false);
                        }
                    }
                    return Err(e);
                },
            };
            match hints_opt {
                Some(hints) => {
                    let ghost nfstream = spec_parse_hints(self.lsm.file_hint(nf))->Some_0;
                    let m = hints.len();
                    let mut t: usize = 0;
                    while t < m
                        invariant
                            old(self).wf(),
                            self.wf(),
                            self.lsm == mid.lsm,
                            self.current_seq == mid.current_seq,
                            self.current_seq == old(self).current_seq,
                            self.options == old(self).options,
                            self.active_file_id() == active,
                            active == old(self).active_file_id(),
                            old(self).files_ok() ==> mid.files_ok(),
                            forall|id: u32|
                                #[trigger] old(self).has_data_file(id) ==> mid.has_data_file(id),
                            m == hints@.len(),
                            t <= m,
                            0 <= i < new_files@.len(),
                            nf == new_files@[i as int],
                            nfstream == spec_parse_hints(self.lsm.file_hint(nf))->Some_0,
                            spec_parse_hints(self.lsm.file_hint(nf)) is Some,
                            m == nfstream.len(),
                            forall|j: int| 0 <= j < m ==> #[trigger] hints@[j]@ == nfstream[j],
                            forall|j: int|
                                0 <= j < m ==> (#[trigger] hints@[j])@.key.len() <= 0xffff,
                            well == (old(self).consistent() && old(self).files_ok()),
                            m0 == old(self).index_map(),
                            forall|j: int|
                                0 <= j < compacted@.len() ==> active != Some(#[trigger] compacted@[j])
                                    && compacted@[j] <= old(self).lsm.file_id_seq@,
                            forall|j: int|
                                0 <= j < new_files@.len() ==> #[trigger] new_files@[j] > old(
                                    self,
                                ).lsm.file_id_seq@,
                            well ==> forall|j: int|
                                0 <= j < new_files@.len() ==> spec_fresh_file_ok(
                                    self.lsm,
                                    m0,
                                    old(self)@,
                                    #[trigger] new_files@[j],
                                    old(self).seq_no(),
                                ),
                            well ==> forall|k: Seq<u8>|
                                (#[trigger] m0.contains_key(k) && compacted@.contains(m0[k].file_id))
                                    ==> spec_copied_key(self.lsm, new_files@, k),
                            well ==> forall|k: Seq<u8>|
                                #[trigger] self.idx@.contains_key(k) <==> m0.contains_key(k),
                            well ==> forall|k: Seq<u8>|
                                #[trigger] self.idx@.contains_key(k) ==> (self.idx@[k].seq == m0[k].seq
                                    && (self.idx@[k] == m0[k] || new_files@.contains(
                                    self.idx@[k].file_id,
                                ))),
                            well ==> spec_entries_ok(self.lsm, self.idx@),
                            well ==> self@ == old(self)@,
                            well ==> forall|jj: int, tt: int|
                                (0 <= jj < i && 0 <= tt < spec_parse_hints(
                                    self.lsm.file_hint(new_files@[jj]),
                                )->Some_0.len() && !(#[trigger] spec_parse_hints(
                                    self.lsm.file_hint(new_files@[jj]),
                                )->Some_0[tt]).deleted) ==> (self.idx@.contains_key(
                                    spec_parse_hints(self.lsm.file_hint(new_files@[jj]))->Some_0[tt].key,
                                ) && new_files@.contains(
                                    self.idx@[spec_parse_hints(
                                        self.lsm.file_hint(new_files@[jj]),
                                    )->Some_0[tt].key].file_id,
                                )),
                            well ==> forall|tt: int|
                                (0 <= tt < t && !(#[trigger] nfstream[tt]).deleted)
                                    ==> (self.idx@.contains_key(nfstream[tt].key) && new_files@.contains(
                                    self.idx@[nfstream[tt].key].file_id,
                                )),
                        decreases m - t,
                    {
                        let ch = CompactionHint {
                            key: slice_to_vec(hints[t].key.as_slice()),
                            log_pos: hints[t].log_pos,
                            value_size: hints[t].value_size,
                            seq: hints[t].seq,
                            deleted: hints[t].deleted,
                        };
                        proof {
                            if well {
                                assert(spec_fresh_file_ok(self.lsm, m0, old(self)@, nf, old(self).seq_no()));
                                assert(nfstream[t as int].seq < old(self).seq_no());
                                assert(ch@.seq < self.current_seq);
                            }
                        }
                        if ch.seq >= self.current_seq {
                            // Every record the engine ever wrote carries a sequence
                            // number below the counter; a hint that does not is
                            // corruption, and installing it would wreck the
                            // counter's monotonicity.
                            return Err(
                                Error::Io("hint sequence number beyond the counter".to_owned()),
                            );
                        }
                        let ghost pre_map = self.idx@;
                        self.idx.update(ch, nf);
                        proof {
                            if well {
                                let h = nfstream[t as int];
                                if h.deleted {
                                    assert(!m0.contains_key(h.key));
                                    assert(!pre_map.contains_key(h.key));
                                    assert(self.idx@ == pre_map);
                                } else {
                                    assert(spec_copy_hint_ok(self.lsm, m0, old(self)@, nf, h));
                                    assert(pre_map.contains_key(h.key));
                                    assert(pre_map[h.key].seq == m0[h.key].seq);
                                    assert(self.idx@ == pre_map.insert(
                                        h.key,
                                        crate::index::spec_hint_entry(h, nf),
                                    ));
                                }
                                assert forall|k: Seq<u8>| #[trigger]
                                    self.idx@.contains_key(k) implies spec_entry_ok(
                                    self.lsm,
                                    self.idx@,
                                    k,
                                ) by {
                                    if pre_map.contains_key(k) && self.idx@[k] == pre_map[k] {
                                        assert(spec_entry_ok(self.lsm, pre_map, k));
                                    } else {
                                        let h = nfstream[t as int];
                                        assert(k == h.key && !h.deleted);
                                        assert(spec_copy_hint_ok(self.lsm, m0, old(self)@, nf, h));
                                    }
                                }
                                assert forall|k: Seq<u8>| #![auto] self@.contains_key(k)
                                    == old(self)@.contains_key(k) && (self@.contains_key(k)
                                    ==> self@[k] == old(self)@[k]) by {
                                    if self.idx@.contains_key(k) {
                                        if !(pre_map.contains_key(k) && self.idx@[k] == pre_map[k]) {
                                            let h = nfstream[t as int];
                                            assert(spec_copy_hint_ok(self.lsm, m0, old(self)@, nf, h));
                                        }
                                    }
                                }
                                assert(self@ =~= old(self)@);
                                assert(new_files@.contains(nf)) by {
                                    assert(new_files@[i as int] == nf);
                                }
                            }
                        }
                        t = t + 1;
                    }
                },
                None => {},
            }
            i = i + 1;
        }
        self.idx.remove_files(compacted.as_slice());
        proof {
            match self.lsm.active_file_id {
                Some(id) => {
                    assert(active == Some(id));
                    if compacted@.contains(id) {
                        let j = choose|j: int|
                            0 <= j < compacted@.len() && compacted@[j] == id;
                        assert(false);
                    }
                },
                None => {},
            }
        }
        let ghost pre_swap = *self;
        match self.lsm.swap_files(compacted.as_slice()) {
            Ok(()) => {
                proof {
                    if old(self).files_ok() {
                        assert forall|id: u32| #[trigger] self.lsm.has_file(id) implies spec_file_stream_ok(
                            self.lsm.file_data(id),
                            self.lsm.file_hint(id),
                            self.current_seq,
                        ) by {
                            assert(pre_swap.lsm.has_file(id));
                            assert(spec_file_stream_ok(
                                pre_swap.lsm.file_data(id),
                                pre_swap.lsm.file_hint(id),
                                pre_swap.current_seq,
                            ));
                        }
                        assert(self.files_ok());
                        assert forall|j: int|
                            0 <= j < files@.len() && old(self).has_data_file(#[trigger] files@[j])
                                && old(self).active_file_id() != Some(
                                files@[j],
                            ) implies !self.has_data_file(files@[j]) by {
                            assert(compacted@.contains(files@[j]));
                        }
                    }
                    if well {
                        // Every surviving entry resolves: entries into the
                        // compacted files were re-pointed into fresh files,
                        // which the swap keeps.
                        assert forall|k: Seq<u8>| #[trigger]
                            self.idx@.contains_key(k) implies spec_entry_ok(
                            self.lsm,
                            self.idx@,
                            k,
                        ) by {
                            let e = self.idx@[k];
                            assert(spec_entry_ok(pre_swap.lsm, pre_swap.idx@, k));
                            if pre_swap.idx@[k] == m0[k] && compacted@.contains(m0[k].file_id) {
                                // completeness re-pointed this key earlier
                                assert(spec_copied_key(pre_swap.lsm, new_files@, k));
                                let jj = choose|jj: int|
                                    0 <= jj < new_files@.len() && spec_file_copies_key(
                                        pre_swap.lsm,
                                        new_files@[jj],
                                        k,
                                    );
                                let tt = choose|tt: int|
                                    0 <= tt < spec_parse_hints(
                                        pre_swap.lsm.file_hint(new_files@[jj]),
                                    )->Some_0.len() && (#[trigger] spec_parse_hints(
                                        pre_swap.lsm.file_hint(new_files@[jj]),
                                    )->Some_0[tt]).key == k && !spec_parse_hints(
                                        pre_swap.lsm.file_hint(new_files@[jj]),
                                    )->Some_0[tt].deleted;
                                assert(new_files@.contains(pre_swap.idx@[k].file_id));
                                assert(false);
                            }
                            // so the entry's file survives the swap
                            assert(!compacted@.contains(e.file_id)) by {
                                if new_files@.contains(e.file_id) {
                                    if compacted@.contains(e.file_id) {
                                        let a = choose|a: int|
                                            0 <= a < compacted@.len() && compacted@[a]
                                                == e.file_id;
                                        let b = choose|b: int|
                                            0 <= b < new_files@.len() && new_files@[b]
                                                == e.file_id;
                                        assert(false);
                                    }
                                } else {
                                    assert(e == m0[k]);
                                }
                            }
                            assert(self.lsm.has_file(e.file_id));
                            assert(self.lsm.file_data(e.file_id) == pre_swap.lsm.file_data(
                                e.file_id,
                            ));
                        }
                        assert forall|k: Seq<u8>| #![auto] self@.contains_key(k)
                            == old(self)@.contains_key(k) && (self@.contains_key(k)
                            ==> self@[k] == old(self)@[k]) by {
                            if self.idx@.contains_key(k) {
                                let e = self.idx@[k];
                                assert(spec_entry_ok(pre_swap.lsm, pre_swap.idx@, k));
                                assert(!compacted@.contains(e.file_id)) by {
                                    if pre_swap.idx@[k] == m0[k] && compacted@.contains(
                                        m0[k].file_id,
                                    ) {
                                        assert(new_files@.contains(pre_swap.idx@[k].file_id));
                                    }
                                    if new_files@.contains(e.file_id) && compacted@.contains(
                                        e.file_id,
                                    ) {
                                        let a = choose|a: int|
                                            0 <= a < compacted@.len() && compacted@[a]
                                                == e.file_id;
                                        let b = choose|b: int|
                                            0 <= b < new_files@.len() && new_files@[b]
                                                == e.file_id;
                                        assert(false);
                                    }
                                }
                                assert(self.lsm.file_data(e.file_id) == pre_swap.lsm.file_data(
                                    e.file_id,
                                ));
                            }
                        }
                        assert(self@ =~= old(self)@);
                        assert(self.consistent());
                    }
                }
                Ok(())
            },
            Err(e) => {
                proof {
                    if well {
                        assert forall|j: int|
                            0 <= j < compacted@.len() implies pre_swap.lsm.has_file(
                            #[trigger] compacted@[j],
                        ) by {
                            assert(old(self).lsm.has_file(compacted@[j]) || mid.lsm.has_file(
                                compacted@[j],
                            ));
                        }
                        assert(false);
                    }
                }
                Err(e)
            },
        }
    }

    /// The id of the file currently receiving foreground appends.
    pub closed spec fn active_file_id(&self) -> Option<u32> {
        self.lsm.active_file_id
    }

    /// How many data files the store holds.
    pub closed spec fn file_count(&self) -> int {
        self.lsm.store@.len() as int
    }

    /// The store's j-th file, ascending by id, as export contracts speak of
    /// it.
    pub closed spec fn stored_file(&self, j: int) -> DataFile {
        self.lsm.store@[j]
    }

    /// Whether a data file with this id exists in the store.
    pub closed spec fn has_data_file(&self, id: u32) -> bool {
        self.lsm.has_file(id)
    }

    /// The per-file statistics the compactor selects files by.
    pub closed spec fn stats(&self) -> Map<u32, AnalysisCounters> {
        self.idx.analysis()
    }

    /// One on-demand compaction pass. Files enter the pass when their
    /// fragmentation or dead bytes reach the trigger bounds; once any file
    /// has pulled the trigger, files over the lower inclusion thresholds and
    /// small files join. Without a trigger nothing runs, even if files pass
    /// the thresholds. The active file never takes part.
    pub fn compact(&mut self) -> (r: Result<(), Error>)
        requires
            old(self).wf(),
        ensures
            final(self).wf(),
            final(self).seq_no() == old(self).seq_no(),
            final(self).spec_options() == old(self).spec_options(),
            final(self).active_file_id() == old(self).active_file_id(),
            old(self).files_ok() ==> final(self).files_ok(),
            !spec_trigger_met(old(self).stats(), old(self).spec_options(), old(
                self,
            ).active_file_id()) ==> r is Ok && *final(self) == *old(self),
            old(self).consistent() && old(self).files_ok() ==> {
                &&& final(self)@ == old(self)@
                &&& final(self).consistent()
                &&& (r is Err ==> r->Err_0 is Io)
            },
            r is Err ==> forall|id: u32|
                #[trigger] old(self).has_data_file(id) ==> final(self).has_data_file(id),
            (old(self).spec_options().fragmentation_threshold <= old(
                self,
            ).spec_options().fragmentation_trigger && old(self).spec_options().dead_bytes_threshold
                <= old(self).spec_options().dead_bytes_trigger && old(self).files_ok()) ==> (r
                is Ok ==> forall|id: u32|
                (#[trigger] spec_triggering_file(
                    old(self).stats(),
                    old(self).spec_options(),
                    old(self).active_file_id(),
                    id,
                ) && old(self).has_data_file(id)) ==> !final(self).has_data_file(id)),
    {
        let analysis = self.idx.file_analysis();
        let active = self.lsm.active_file_id;
        let mut files: Vec<u32> = Vec::new();
        let mut triggered = false;
        let n = analysis.len();
        let mut i: usize = 0;
        let ghost thresholds_below = self.options.fragmentation_threshold
            <= self.options.fragmentation_trigger && self.options.dead_bytes_threshold
            <= self.options.dead_bytes_trigger;
        while i < n
            invariant
                self.wf(),
                *self == *old(self),
                active == old(self).active_file_id(),
                thresholds_below == (self.options.fragmentation_threshold
                    <= self.options.fragmentation_trigger && self.options.dead_bytes_threshold
                    <= self.options.dead_bytes_trigger),
                forall|a: int|
                    0 <= a < analysis@.len() ==> {
                        &&& self.stats().contains_key((#[trigger] analysis@[a]).0)
                        &&& analysis@[a].1 == crate::index::spec_frag_permille(
                            self.stats()[analysis@[a].0],
                        )
                        &&& analysis@[a].2 == self.stats()[analysis@[a].0].dead_bytes
                    },
                forall|k: u32|
                    self.stats().contains_key(k) ==> exists|a: int|
                        0 <= a < analysis@.len() && analysis@[a].0 == k,
                forall|a: int, b: int|
                    0 <= a < b < analysis@.len() ==> analysis@[a].0 != analysis@[b].0,
                n == analysis@.len(),
                i <= n,
                forall|a: int, b: int| 0 <= a < b < files@.len() ==> files@[a] < files@[b],
                triggered ==> spec_trigger_met(self.stats(), self.options, active),
                forall|x: u32|
                    #[trigger] files@.contains(x) ==> exists|a: int|
                        0 <= a < i && analysis@[a].0 == x,
                !triggered ==> forall|a: int|
                    0 <= a < i ==> !spec_triggering_file(
                        self.stats(),
                        self.options,
                        active,
                        (#[trigger] analysis@[a]).0,
                    ),
                thresholds_below ==> forall|a: int|
                    0 <= a < i ==> (spec_triggering_file(
                        self.stats(),
                        self.options,
                        active,
                        (#[trigger] analysis@[a]).0,
                    ) ==> files@.contains(analysis@[a].0)),
            decreases n - i,
        {
            let (file_id, fragmentation, dead_bytes) = analysis[i];
            let ghost pre_files = files@;
            let skip = match active {
                Some(id) => id == file_id,
                None => false,
            };
            if !skip {
                proof {
                    if files@.contains(file_id) {
                        // Every id in the list came from an earlier row, and
                        // the rows carry pairwise distinct ids.
                        let a = choose|a: int| 0 <= a < i && analysis@[a].0 == file_id;
                        assert(analysis@[a].0 != analysis@[i as int].0);
                        assert(false);
                    }
                }
                if !triggered {
                    if fragmentation >= self.options.fragmentation_trigger {
                        triggered = true;
                        crate::util::insert_sorted(&mut files, file_id);
                    } else if dead_bytes >= self.options.dead_bytes_trigger
                        && !crate::util::contains_u32(files.as_slice(), file_id) {
                        triggered = true;
                        crate::util::insert_sorted(&mut files, file_id);
                    }
                }
                if fragmentation >= self.options.fragmentation_threshold
                    && !crate::util::contains_u32(files.as_slice(), file_id) {
                    crate::util::insert_sorted(&mut files, file_id);
                } else if dead_bytes >= self.options.dead_bytes_threshold
                    && !crate::util::contains_u32(files.as_slice(), file_id) {
                    crate::util::insert_sorted(&mut files, file_id);
                }
                if !crate::util::contains_u32(files.as_slice(), file_id) {
                    match self.lsm.file_size(file_id) {
                        Ok(file_size) => {
                            if file_size <= self.options.small_file_threshold {
                                crate::util::insert_sorted(&mut files, file_id);
                            }
                        },
                        Err(_) => {},
                    }
                }
            }
            proof {
                if spec_triggering_file(self.stats(), self.options, active, file_id) {
                    assert(spec_trigger_met(self.stats(), self.options, active));
                }
                assert forall|x: u32| pre_files.contains(x) implies files@.contains(x) by {}
                assert forall|x: u32| #[trigger] files@.contains(x) implies exists|a: int|
                    0 <= a < i + 1 && analysis@[a].0 == x by {
                    if pre_files.contains(x) {
                    } else {
                        assert(x == file_id);
                        assert(analysis@[i as int].0 == x);
                    }
                }
            }
            i = i + 1;
        }
        if triggered {
            let ghost pre = *self;
            let r = self.compact_files(files.as_slice());
            proof {
                if pre.spec_options().fragmentation_threshold
                    <= pre.spec_options().fragmentation_trigger
                    && pre.spec_options().dead_bytes_threshold
                    <= pre.spec_options().dead_bytes_trigger && pre.files_ok() && r is Ok {
                    assert forall|id: u32|
                        #[trigger] spec_triggering_file(pre.stats(), pre.spec_options(), active, id)
                            && pre.has_data_file(id) implies !self.has_data_file(id) by {
                        let a = choose|a: int|
                            0 <= a < analysis@.len() && analysis@[a].0 == id;
                        assert(files@.contains(id));
                        let j = choose|j: int| 0 <= j < files@.len() && files@[j] == id;
                    }
                }
            }
            r
        } else {
            proof {
                if spec_trigger_met(self.stats(), self.options, active) {
                    let id = choose|id: u32|
                        spec_triggering_file(self.stats(), self.options, active, id);
                    let a = choose|a: int|
                        0 <= a < analysis@.len() && analysis@[a].0 == id;
                    assert(spec_triggering_file(self.stats(), self.options, active, analysis@[a].0));
                    assert(false);
                }
            }
            Ok(())
        }
    }
}

} // verus!
