//! The log-structured file set: every data file's bytes, the sibling hint
//! bodies, the active-file append path with size-based rotation, and random
//! reads by (file id, offset).
//!
//! The engine holds the full byte image of the store; a host program mirrors
//! the image to disk and hands it back at startup.

use vstd::prelude::*;

use crate::codec::{
    parse_hint_stream, spec_parse_hints, CompactionHint, Log, LogView, spec_hint_encoding, spec_hint_of, spec_log_at, spec_log_clean,
    spec_log_encoding, spec_log_fits, spec_log_size, spec_log_sum_input, spec_log_valid,
    spec_key_len_at, spec_stored_sum, wf_log, LOG_STATIC_SIZE,
};
use crate::checksum::xxhash32_of;
use crate::error::Error;

verus! {

/// A monotonic counter that hands out file ids.
pub struct Sequence {
    value: u32,
}

impl View for Sequence {
    type V = u32;

    closed spec fn view(&self) -> u32 {
        self.value
    }
}

impl Sequence {
    /// A counter that has handed out everything up to and including `id`.
    pub fn new(id: u32) -> (r: Sequence)
        ensures
            r@ == id,
    {
        Sequence { value: id }
    }

    /// The last id handed out.
    pub fn value(&self) -> (r: u32)
        ensures
            r == self@,
    {
        self.value
    }

    /// The next fresh id.
    pub fn increment(&mut self) -> (r: u32)
        requires
            old(self)@ < u32::MAX,
        ensures
            final(self)@ == old(self)@ + 1,
            r == old(self)@ + 1,
    {
        self.value = self.value + 1;
        self.value
    }
}

/// One data file of the store: its id, its bytes, and the body of its
/// sibling hint file (the 4-byte trailing checksum is added when the file is
/// handed out for persistence).
pub struct DataFile {
    pub id: u32,
    pub data: Vec<u8>,
    pub hint: Vec<u8>,
}

/// The in-memory image of the store's directory.
pub struct Lsm {
    pub store: Vec<DataFile>,
    pub active_file_id: Option<u32>,
    pub file_id_seq: Sequence,
    pub max_file_size: u64,
}

impl Lsm {
    /// File ids strictly ascending, none above the id counter, and the
    /// active file, if any, present.
    pub open spec fn wf(&self) -> bool {
        &&& forall|i: int, j: int|
            0 <= i < j < self.store@.len() ==> self.store@[i].id < self.store@[j].id
        &&& forall|i: int| 0 <= i < self.store@.len() ==> #[trigger] self.store@[i].id <= self.file_id_seq@
        &&& match self.active_file_id {
            Some(id) => self.has_file(id),
            None => true,
        }
    }

    /// Whether a file with this id exists.
    pub open spec fn has_file(&self, id: u32) -> bool {
        exists|i: int| 0 <= i < self.store@.len() && self.store@[i].id == id
    }

    /// The slot of the file with this id.
    pub open spec fn file_index(&self, id: u32) -> int {
        choose|i: int| 0 <= i < self.store@.len() && self.store@[i].id == id
    }

    /// The bytes of the data file with this id.
    pub open spec fn file_data(&self, id: u32) -> Seq<u8> {
        self.store@[self.file_index(id)].data@
    }

    /// The hint body of the file with this id.
    pub open spec fn file_hint(&self, id: u32) -> Seq<u8> {
        self.store@[self.file_index(id)].hint@
    }

    /// An empty store whose id counter starts at `last_id`.
    pub fn new(last_id: u32, max_file_size: u64) -> (r: Lsm)
        ensures
            r.wf(),
            r.store@.len() == 0,
            r.active_file_id is None,
            r.file_id_seq@ == last_id,
            r.max_file_size == max_file_size,
    {
        Lsm {
            store: Vec::new(),
            active_file_id: None,
            file_id_seq: Sequence::new(last_id),
            max_file_size,
        }
    }

    /// The slot of `file_id`, or `None` if no such file exists.
    fn find_file(&self, file_id: u32) -> (r: Option<usize>)
        requires
            self.wf(),
        ensures
            match r {
                Some(i) => i < self.store@.len() && self.store@[i as int].id == file_id
                    && self.has_file(file_id) && self.file_index(file_id) == i,
                None => !self.has_file(file_id),
            },
    {
        let n = self.store.len();
        let mut i: usize = 0;
        while i < n
            invariant
                self.wf(),
                n == self.store@.len(),
                i <= n,
                forall|j: int| 0 <= j < i ==> self.store@[j].id != file_id,
            decreases n - i,
        {
            if self.store[i].id == file_id {
                proof {
                    let w = self.file_index(file_id);
                    assert(0 <= w < self.store@.len() && self.store@[w].id == file_id);
                    if w != i {
                        assert(self.store@[w].id != self.store@[i as int].id);
                    }
                }
                return Some(i);
            }
            i = i + 1;
        }
        None
    }

    /// The ids of the immutable, non-active files of the store, ascending;
    /// the active file joins the list only once it has been rotated out.
    pub fn files(&self) -> (r: Vec<u32>)
        requires
            self.wf(),
        ensures
            forall|a: int, b: int| 0 <= a < b < r@.len() ==> r@[a] < r@[b],
            forall|id: u32|
                #[trigger] r@.contains(id) <==> (self.has_file(id) && self.active_file_id != Some(
                    id,
                )),
    {
        proof {
            self.lemma_file_lookup();
        }
        let n = self.store.len();
        let mut r: Vec<u32> = Vec::new();
        let mut i: usize = 0;
        while i < n
            invariant
                self.wf(),
                n == self.store@.len(),
                i <= n,
                forall|a: int, b: int| 0 <= a < b < r@.len() ==> r@[a] < r@[b],
                forall|a: int|
                    0 <= a < r@.len() ==> exists|j: int|
                        0 <= j < i && #[trigger] r@[a] == self.store@[j].id,
                forall|id: u32|
                    #[trigger] r@.contains(id) <==> (exists|j: int|
                        0 <= j < i && self.store@[j].id == id && self.active_file_id != Some(id)),
            decreases n - i,
        {
            let id = self.store[i].id;
            let keep = match self.active_file_id {
                Some(active) => active != id,
                None => true,
            };
            let ghost pre = r@;
            if keep {
                proof {
                    assert forall|a: int| 0 <= a < pre.len() implies pre[a] < id by {
                        let j = choose|j: int| 0 <= j < i && pre[a] == self.store@[j].id;
                        assert(self.store@[j].id < self.store@[i as int].id);
                    }
                }
                r.push(id);
            }
            proof {
                assert forall|x: u32| #[trigger] r@.contains(x) <==> (exists|j: int|
                    0 <= j < i + 1 && self.store@[j].id == x && self.active_file_id != Some(
                        x,
                    )) by {
                    if r@.contains(x) {
                        let a = choose|a: int| 0 <= a < r@.len() && r@[a] == x;
                        if a < pre.len() {
                            assert(pre[a] == x);
                            assert(pre.contains(x));
                        } else {
                            assert(x == id);
                            assert(self.store@[i as int].id == x);
                        }
                    }
                    if exists|j: int|
                        0 <= j < i + 1 && self.store@[j].id == x && self.active_file_id != Some(
                            x,
                        ) {
                        let j = choose|j: int|
                            0 <= j < i + 1 && self.store@[j].id == x && self.active_file_id
                                != Some(x);
                        if j < i {
                            assert(pre.contains(x));
                            let a = choose|a: int| 0 <= a < pre.len() && pre[a] == x;
                            assert(r@[a] == x);
                        } else {
                            assert(keep);
                            assert(r@[r@.len() - 1] == x);
                        }
                    }
                }
                assert forall|a: int| 0 <= a < r@.len() implies exists|j: int|
                    0 <= j < i + 1 && #[trigger] r@[a] == self.store@[j].id by {
                    if a < pre.len() {
                        let j = choose|j: int| 0 <= j < i && pre[a] == self.store@[j].id;
                        assert(r@[a] == self.store@[j].id);
                    } else {
                        assert(r@[a] == self.store@[i as int].id);
                    }
                }
            }
            i = i + 1;
        }
        proof {
            assert forall|id: u32| #[trigger] r@.contains(id) <==> (self.has_file(id)
                && self.active_file_id != Some(id)) by {
                if self.has_file(id) && self.active_file_id != Some(id) {
                    let j = self.file_index(id);
                    assert(0 <= j < n && self.store@[j].id == id);
                }
            }
        }
        r
    }

    /// The size in bytes of the data file with this id.
    pub fn file_size(&self, file_id: u32) -> (r: Result<u64, Error>)
        requires
            self.wf(),
        ensures
            self.has_file(file_id) ==> r == Ok::<u64, Error>(self.file_data(file_id).len() as u64),
            !self.has_file(file_id) ==> r == Err::<u64, Error>(Error::InvalidFileId(file_id)),
    {
        match self.find_file(file_id) {
            Some(i) => Ok(self.store[i].data.len() as u64),
            None => Err(Error::InvalidFileId(file_id)),
        }
    }

    /// Decode the record at `pos` of the file with this id.
    pub fn read_log(&self, file_id: u32, pos: u64) -> (r: Result<Log, Error>)
        requires
            self.wf(),
        ensures
            !self.has_file(file_id) ==> r == Err::<Log, Error>(Error::InvalidFileId(file_id)),
            self.has_file(file_id) ==> ({
                let d = self.file_data(file_id);
                let p = pos as int;
                if p + LOG_STATIC_SIZE > d.len() {
                    r matches Err(e) && e is Io
                } else if spec_key_len_at(d, p) == 0 {
                    r == Err::<Log, Error>(Error::InvalidKeySize(0usize))
                } else if !spec_log_fits(d, p) {
                    r matches Err(e) && e is Io
                } else if !spec_log_clean(d, p) {
                    r == Err::<Log, Error>(Error::InvalidChecksum {
                        expected: spec_stored_sum(d, p),
                        found: xxhash32_of(spec_log_sum_input(d, p)),
                    })
                } else {
                    r matches Ok(l) && l@ == spec_log_at(d, p)
                }
            }),
    {
        match self.find_file(file_id) {
            Some(i) => {
                let data = self.store[i].data.as_slice();
                if pos > data.len() as u64 {
                    return Err(Error::Io("read past end of data file".to_owned()));
                }
                Log::from_read(data, pos as usize)
            },
            None => Err(Error::InvalidFileId(file_id)),
        }
    }
}

/// Whether writing a record of `size` bytes to `current` forces a fresh
/// file: there is no current file, or the current one would grow past the
/// size limit.
pub open spec fn spec_rotate_needed(lsm: Lsm, current: Option<u32>, size: int) -> bool {
    match current {
        None => true,
        Some(id) => lsm.file_data(id).len() + size > lsm.max_file_size,
    }
}

/// How one append changes the file set. Rotation starts a fresh file under
/// the next id and writes at offset 0; otherwise the record and its hint go
/// to the end of the current file. Either way every other file is untouched.
/// The only failure is an exhausted id counter, which leaves the set as it
/// was.
pub open spec fn spec_append_effect(
    pre: Lsm,
    post: Lsm,
    current: Option<u32>,
    l: LogView,
    r: Result<(u32, u64), Error>,
) -> bool {
    let size = spec_log_size(l);
    if spec_rotate_needed(pre, current, size) {
        if pre.file_id_seq@ == u32::MAX {
            &&& r matches Err(e) && e is Io
            &&& post == pre
        } else {
            let nid = (pre.file_id_seq@ + 1) as u32;
            &&& r == Ok::<(u32, u64), Error>((nid, 0u64))
            &&& post.file_id_seq@ == nid
            &&& post.max_file_size == pre.max_file_size
            &&& (forall|id: u32| #[trigger] post.has_file(id) <==> pre.has_file(id) || id == nid)
            &&& (forall|id: u32|
                #[trigger] pre.has_file(id) ==> post.file_data(id) == pre.file_data(id)
                    && post.file_hint(id) == pre.file_hint(id))
            &&& !pre.has_file(nid)
            &&& post.file_data(nid) == spec_log_encoding(l)
            &&& post.file_hint(nid) == spec_hint_encoding(spec_hint_of(0, l))
        }
    } else {
        let id = current->Some_0;
        let pos = pre.file_data(id).len();
        &&& r == Ok::<(u32, u64), Error>((id, pos as u64))
        &&& post.file_id_seq@ == pre.file_id_seq@
        &&& post.max_file_size == pre.max_file_size
        &&& (forall|fid: u32| #[trigger] post.has_file(fid) <==> pre.has_file(fid))
        &&& (forall|fid: u32|
            #[trigger] pre.has_file(fid) && fid != id ==> post.file_data(fid) == pre.file_data(fid)
                && post.file_hint(fid) == pre.file_hint(fid))
        &&& post.file_data(id) == pre.file_data(id) + spec_log_encoding(l)
        &&& post.file_hint(id) == pre.file_hint(id) + spec_hint_encoding(
            spec_hint_of(pos as u64, l),
        )
    }
}

impl Lsm {
    /// With ascending ids, each slot is found back by its id.
    pub proof fn lemma_file_lookup(self)
        requires
            self.wf(),
        ensures
            forall|i: int|
                0 <= i < self.store@.len() ==> #[trigger] self.file_index(self.store@[i].id) == i
                    && self.has_file(self.store@[i].id),
            forall|id: u32|
                #[trigger] self.has_file(id) ==> 0 <= self.file_index(id) < self.store@.len()
                    && self.store@[self.file_index(id)].id == id,
    {
        assert forall|i: int| 0 <= i < self.store@.len() implies #[trigger] self.file_index(
            self.store@[i].id,
        ) == i && self.has_file(self.store@[i].id) by {
            let id = self.store@[i].id;
            assert(self.has_file(id));
            let w = self.file_index(id);
            assert(0 <= w < self.store@.len() && self.store@[w].id == id);
            if w < i {
                assert(self.store@[w].id < self.store@[i].id);
            }
            if w > i {
                assert(self.store@[i].id < self.store@[w].id);
            }
        }
    }

    /// Two sets with the same slots agree on every lookup.
    pub proof fn lemma_same_store(self, other: Lsm)
        requires
            self.store@ == other.store@,
            forall|i: int, j: int|
                0 <= i < j < self.store@.len() ==> self.store@[i].id < self.store@[j].id,
        ensures
            forall|id: u32| #![auto] self.has_file(id) == other.has_file(id),
            forall|id: u32|
                #[trigger] self.has_file(id) ==> self.file_index(id) == other.file_index(id)
                    && self.file_data(id) == other.file_data(id) && self.file_hint(id)
                    == other.file_hint(id),
    {
        assert forall|id: u32| #![auto] self.has_file(id) == other.has_file(id) by {
            if self.has_file(id) {
                let w = choose|i: int| 0 <= i < self.store@.len() && self.store@[i].id == id;
                assert(other.store@[w].id == id);
            }
            if other.has_file(id) {
                let w = choose|i: int| 0 <= i < other.store@.len() && other.store@[i].id == id;
                assert(self.store@[w].id == id);
            }
        }
        assert forall|id: u32| #[trigger] self.has_file(id) implies self.file_index(id)
            == other.file_index(id) && self.file_data(id) == other.file_data(id)
            && self.file_hint(id) == other.file_hint(id) by {
            let wa = self.file_index(id);
            let wb = other.file_index(id);
            assert(0 <= wa < self.store@.len() && self.store@[wa].id == id);
            assert(other.has_file(id));
            assert(0 <= wb < other.store@.len() && other.store@[wb].id == id);
            if wa < wb {
                assert(self.store@[wa].id < self.store@[wb].id);
            }
            if wb < wa {
                assert(self.store@[wb].id < self.store@[wa].id);
            }
        }
    }

    /// Append one record, with its hint, to the file `current`, rotating
    /// first when the record does not fit. Returns the file id and offset
    /// written. The active-file marker is left to the caller.
    fn append_with(&mut self, current: Option<u32>, log: &Log) -> (r: Result<(u32, u64), Error>)
        requires
            old(self).wf(),
            wf_log(log@),
            match current {
                Some(id) => old(self).has_file(id),
                None => true,
            },
        ensures
            final(self).wf(),
            final(self).active_file_id == old(self).active_file_id,
            final(self).file_id_seq@ >= old(self).file_id_seq@,
            spec_append_effect(*old(self), *final(self), current, log@, r),
    {
        proof {
            old(self).lemma_file_lookup();
        }
        let size = log.size();
        let slot: Option<usize> = match current {
            Some(id) => {
                match self.find_file(id) {
                    Some(i) => {
                        let len = self.store[i].data.len();
                        if size > self.max_file_size || (len as u64) > self.max_file_size - size {
                            None
                        } else {
                            Some(i)
                        }
                    },
                    None => {
                        // `current` is a file of the set by precondition.
                        proof {
                            assert(false);
                        }
                        None
                    },
                }
            },
            None => None,
        };
        match slot {
            Some(i) => {
                let id = self.store[i].id;
                let pos = self.store[i].data.len();
                log.write_bytes(&mut self.store[i].data);
                let ch = CompactionHint::new(log, pos as u64);
                ch.write_bytes(&mut self.store[i].hint);
                proof {
                    let pre = *old(self);
                    let post = *self;
                    assert(post.store@.len() == pre.store@.len());
                    assert(forall|j: int|
                        0 <= j < post.store@.len() ==> post.store@[j].id == pre.store@[j].id);
                    assert(post.wf());
                    post.lemma_file_lookup();
                    assert forall|fid: u32| #[trigger] post.has_file(fid) <==> pre.has_file(
                        fid,
                    ) by {
                        if pre.has_file(fid) {
                            let w = pre.file_index(fid);
                            assert(post.store@[w].id == fid);
                        }
                        if post.has_file(fid) {
                            let w = post.file_index(fid);
                            assert(pre.store@[w].id == fid);
                        }
                    }
                    assert forall|fid: u32| #[trigger]
                        pre.has_file(fid) && fid != id implies post.file_data(fid)
                        == pre.file_data(fid) && post.file_hint(fid) == pre.file_hint(fid) by {
                        let w = pre.file_index(fid);
                        assert(post.file_index(fid) == w);
                        assert(w != i);
                    }
                    assert(pre.file_index(id) == i as int);
                    assert(post.file_index(id) == i as int);
                    assert(post.file_data(id) == pre.file_data(id) + spec_log_encoding(log@));
                    assert(!spec_rotate_needed(pre, current, spec_log_size(log@)));
                }
                Ok((id, pos as u64))
            },
            None => {
                if self.file_id_seq.value() == u32::MAX {
                    return Err(Error::Io("file ids exhausted".to_owned()));
                }
                let nid = self.file_id_seq.increment();
                let mut file = DataFile { id: nid, data: Vec::new(), hint: Vec::new() };
                log.write_bytes(&mut file.data);
                let ch = CompactionHint::new(log, 0);
                ch.write_bytes(&mut file.hint);
                proof {
                    assert(file.data@ =~= Seq::<u8>::empty() + spec_log_encoding(log@));
                    assert(file.data@ == spec_log_encoding(log@));
                    assert(file.hint@ =~= Seq::<u8>::empty() + spec_hint_encoding(
                        spec_hint_of(0, log@),
                    ));
                }
                let ghost pre = *old(self);
                self.store.push(file);
                proof {
                    let post = *self;
                    assert(forall|j: int|
                        0 <= j < pre.store@.len() ==> post.store@[j] == pre.store@[j]);
                    assert(post.store@.last().id == nid);
                    assert(forall|j: int|
                        0 <= j < pre.store@.len() ==> #[trigger] pre.store@[j].id
                            < nid);
                    assert(post.wf());
                    post.lemma_file_lookup();
                    pre.lemma_file_lookup();
                    assert(!pre.has_file(nid));
                    assert forall|fid: u32| #[trigger] post.has_file(fid) <==> pre.has_file(fid)
                        || fid == nid by {
                        if pre.has_file(fid) {
                            let w = pre.file_index(fid);
                            assert(post.store@[w].id == fid);
                        }
                        if post.has_file(fid) && fid != nid {
                            let w = post.file_index(fid);
                            assert(w < pre.store@.len());
                            assert(pre.store@[w].id == fid);
                        }
                        if fid == nid {
                            assert(post.store@[post.store@.len() - 1].id == fid);
                            assert(post.has_file(fid));
                        }
                    }
                    assert forall|fid: u32| #[trigger] pre.has_file(fid) implies post.file_data(
                        fid,
                    ) == pre.file_data(fid) && post.file_hint(fid) == pre.file_hint(fid) by {
                        let w = pre.file_index(fid);
                        assert(post.store@[w] == pre.store@[w]);
                        assert(post.file_index(fid) == w);
                    }
                    assert(post.file_index(nid) == post.store@.len() - 1);
                    assert(spec_rotate_needed(pre, current, spec_log_size(log@)));
                }
                Ok((nid, 0))
            },
        }
    }

    /// Append one record to the active file, rotating at the size limit; the
    /// file that the record landed in becomes (or stays) the active file.
    pub fn append_log(&mut self, log: &Log) -> (r: Result<(u32, u64), Error>)
        requires
            old(self).wf(),
            wf_log(log@),
        ensures
            final(self).wf(),
            spec_append_effect(*old(self), *final(self), old(self).active_file_id, log@, r),
            r matches Ok(p) ==> final(self).active_file_id == Some(p.0) && final(self).has_file(
                p.0,
            ),
            r is Err ==> *final(self) == *old(self),
    {
        match self.append_with(self.active_file_id, log) {
            Ok(p) => {
                let ghost mid = *self;
                self.active_file_id = Some(p.0);
                proof {
                    mid.lemma_same_store(*self);
                    assert(mid.has_file(p.0));
                }
                Ok(p)
            },
            Err(e) => Err(e),
        }
    }

    /// An output writer for compaction: it shares the id counter and the
    /// size limit, but appends to its own chain of fresh files, never to the
    /// active one.
    pub fn writer(&self) -> (r: LsmWriter)
        ensures
            r.current_file_id is None,
    {
        LsmWriter { current_file_id: None }
    }

    /// Unlink the given files, atomically: if any id is unknown the set is
    /// left untouched and that id is reported.
    pub fn swap_files(&mut self, old_files: &[u32]) -> (r: Result<(), Error>)
        requires
            old(self).wf(),
            match old(self).active_file_id {
                Some(id) => !old_files@.contains(id),
                None => true,
            },
        ensures
            final(self).wf(),
            final(self).active_file_id == old(self).active_file_id,
            final(self).file_id_seq@ == old(self).file_id_seq@,
            final(self).max_file_size == old(self).max_file_size,
            r is Err ==> *final(self) == *old(self) && (r->Err_0 is InvalidFileId) && !old(
                self,
            ).has_file(r->Err_0->InvalidFileId_0) && old_files@.contains(
                r->Err_0->InvalidFileId_0,
            ),
            (forall|i: int| 0 <= i < old_files@.len() ==> old(self).has_file(
                #[trigger] old_files@[i],
            )) ==> r is Ok,
            r is Ok ==> {
                &&& forall|i: int| 0 <= i < old_files@.len() ==> old(self).has_file(#[trigger] old_files@[i])
                &&& forall|id: u32|
                    #[trigger] final(self).has_file(id) <==> (old(self).has_file(id)
                        && !old_files@.contains(id))
                &&& forall|id: u32|
                    #[trigger] final(self).has_file(id) ==> final(self).file_data(id) == old(
                        self,
                    ).file_data(id) && final(self).file_hint(id) == old(self).file_hint(id)
            },
    {
        // Validate every id before touching anything.
        let n = old_files.len();
        let mut i: usize = 0;
        while i < n
            invariant
                self.wf(),
                *self == *old(self),
                n == old_files@.len(),
                i <= n,
                forall|j: int| 0 <= j < i ==> old(self).has_file(#[trigger] old_files@[j]),
            decreases n - i,
        {
            if self.find_file(old_files[i]).is_none() {
                proof {
                    assert(old_files@[i as int] == old_files[i as int]);
                }
                return Err(Error::InvalidFileId(old_files[i]));
            }
            i = i + 1;
        }
        let mut k: usize = 0;
        while k < n
            invariant
                self.wf(),
                self.active_file_id == old(self).active_file_id,
                self.file_id_seq@ == old(self).file_id_seq@,
                self.max_file_size == old(self).max_file_size,
                n == old_files@.len(),
                k <= n,
                match old(self).active_file_id {
                    Some(id) => !old_files@.contains(id),
                    None => true,
                },
                forall|id: u32|
                    #[trigger] self.has_file(id) <==> (old(self).has_file(id) && !old_files@
                        .subrange(0, k as int).contains(id)),
                forall|id: u32|
                    #[trigger] self.has_file(id) ==> self.file_data(id) == old(self).file_data(id)
                        && self.file_hint(id) == old(self).file_hint(id),
            decreases n - k,
        {
            let fid = old_files[k];
            let ghost pre = *self;
            let ghost fsub = old_files@.subrange(0, k as int);
            let ghost fsub1 = old_files@.subrange(0, k + 1);
            match self.find_file(fid) {
                Some(i2) => {
                    self.store.remove(i2);
                    proof {
                        assert(forall|j: int|
                            0 <= j < i2 ==> self.store@[j] == pre.store@[j]);
                        assert(forall|j: int|
                            i2 <= j < self.store@.len() ==> self.store@[j] == pre.store@[j
                                + 1]);
                        assert(forall|j1: int, j2: int|
                            0 <= j1 < j2 < self.store@.len() ==> self.store@[j1].id
                                < self.store@[j2].id);
                        if pre.active_file_id is Some {
                            let aid = pre.active_file_id->Some_0;
                            assert(pre.has_file(aid));
                            let w = pre.file_index(aid);
                            assert(pre.store@[w].id == aid);
                            assert(pre.store@[i2 as int].id == fid);
                            assert(aid != fid);
                            if w < i2 {
                                assert(self.store@[w].id == aid);
                            } else {
                                assert(w != i2);
                                assert(self.store@[w - 1].id == aid);
                            }
                            assert(self.has_file(aid));
                        }
                        assert(self.wf());
                        pre.lemma_file_lookup();
                        self.lemma_file_lookup();
                        assert forall|id: u32| #[trigger] self.has_file(id) <==> (pre.has_file(id)
                            && id != fid) by {
                            if self.has_file(id) {
                                let w = self.file_index(id);
                                if w < i2 {
                                    assert(pre.store@[w].id == id);
                                } else {
                                    assert(pre.store@[w + 1].id == id);
                                }
                                if id == fid {
                                    let wp = pre.file_index(id);
                                    assert(wp == i2 as int);
                                    if w < i2 {
                                        assert(pre.store@[w].id == pre.store@[i2 as int].id);
                                        assert(false);
                                    } else {
                                        assert(pre.store@[w + 1].id == pre.store@[i2 as int].id);
                                        assert(false);
                                    }
                                }
                            }
                            if pre.has_file(id) && id != fid {
                                let w = pre.file_index(id);
                                assert(w != i2);
                                if w < i2 {
                                    assert(self.store@[w].id == id);
                                } else {
                                    assert(self.store@[w - 1].id == id);
                                }
                            }
                        }
                        assert forall|id: u32| #[trigger] self.has_file(id) implies self.file_data(
                            id,
                        ) == pre.file_data(id) && self.file_hint(id) == pre.file_hint(id) by {
                            let w = self.file_index(id);
                            let wp = pre.file_index(id);
                            if w < i2 {
                                assert(pre.store@[w].id == id);
                                assert(wp == w);
                            } else {
                                assert(pre.store@[w + 1].id == id);
                                assert(wp == w + 1);
                            }
                        }
                    }
                },
                None => {
                    // Already validated: every listed id is present until it
                    // is removed, and ids may repeat in the list.
                },
            }
            proof {
                assert(fsub1 =~= fsub.push(old_files@[k as int]));
                assert forall|id: u32| #![auto] fsub1.contains(id) == (fsub.contains(id) || id
                    == fid) by {
                    if fsub1.contains(id) {
                        let j = choose|j: int| 0 <= j < fsub1.len() && fsub1[j] == id;
                        if j < k {
                            assert(fsub[j] == id);
                        }
                    }
                    if fsub.contains(id) {
                        let j = choose|j: int| 0 <= j < fsub.len() && fsub[j] == id;
                        assert(fsub1[j] == id);
                    }
                    assert(fsub1[k as int] == fid);
                }
                assert forall|id: u32| #[trigger] self.has_file(id) <==> (old(self).has_file(id)
                    && !fsub1.contains(id)) by {}
            }
            k = k + 1;
        }
        proof {
            assert(old_files@.subrange(0, n as int) =~= old_files@);
        }
        Ok(())
    }
}

/// The independent appender a compaction pass writes through. It keeps track
/// of its own current output file; the ids come from the shared counter of
/// the file set it writes into.
pub struct LsmWriter {
    pub current_file_id: Option<u32>,
}

/// What one write through a writer did: the record went to the writer's
/// current file at this offset, or a fresh file with this id was started.
pub enum LsmWrite {
    Wrote(u64),
    NewFile(u32),
}

impl LsmWriter {
    /// Append one record through this writer, rotating at the size limit.
    pub fn write(&mut self, lsm: &mut Lsm, log: &Log) -> (r: Result<LsmWrite, Error>)
        requires
            old(lsm).wf(),
            wf_log(log@),
            match old(self).current_file_id {
                Some(id) => old(lsm).has_file(id),
                None => true,
            },
        ensures
            final(lsm).wf(),
            final(lsm).active_file_id == old(lsm).active_file_id,
            final(lsm).file_id_seq@ >= old(lsm).file_id_seq@,
            r is Err ==> *final(lsm) == *old(lsm) && *final(self) == *old(self)
                && r->Err_0 is Io,
            r matches Ok(w) ==> ({
                let p = match w {
                    LsmWrite::NewFile(id) => (id, 0u64),
                    LsmWrite::Wrote(pos) => (old(self).current_file_id->Some_0, pos),
                };
                &&& spec_append_effect(*old(lsm), *final(lsm), old(self).current_file_id, log@, Ok(p))
                &&& final(self).current_file_id == Some(p.0)
                &&& final(lsm).has_file(p.0)
                &&& (w is NewFile <==> spec_rotate_needed(
                    *old(lsm),
                    old(self).current_file_id,
                    spec_log_size(log@),
                ))
            }),
    {
        proof {
            old(lsm).lemma_file_lookup();
        }
        let current = self.current_file_id;
        match lsm.append_with(current, log) {
            Ok(p) => {
                let rotated = match current {
                    Some(id) => id != p.0,
                    None => true,
                };
                self.current_file_id = Some(p.0);
                proof {
                    if spec_rotate_needed(*old(lsm), current, spec_log_size(log@)) {
                        assert(p.0 == (old(lsm).file_id_seq@ + 1) as u32);
                        match current {
                            Some(id) => {
                                let w = old(lsm).file_index(id);
                                assert(old(lsm).store@[w].id == id);
                                assert(id <= old(lsm).file_id_seq@);
                                assert(rotated);
                            },
                            None => {},
                        }
                    }
                }
                if rotated {
                    Ok(LsmWrite::NewFile(p.0))
                } else {
                    Ok(LsmWrite::Wrote(p.1))
                }
            },
            Err(e) => Err(e),
        }
    }
}

/// A file pair as read back from disk at startup: the hint bytes still
/// carry their 4-byte trailing checksum, and either file may be arbitrarily
/// damaged.
pub struct RawFile {
    pub id: u32,
    pub data: Vec<u8>,
    pub hint: Vec<u8>,
}

/// A hint file whose last four bytes checksum the rest.
pub open spec fn spec_valid_trailer(hint: Seq<u8>) -> bool {
    &&& hint.len() >= 4
    &&& hint.subrange(hint.len() - 4, hint.len() as int) == vstd::bytes::spec_u32_to_le_bytes(
        xxhash32_of(hint.subrange(0, hint.len() - 4)),
    )
}

/// Check the trailing checksum of a hint file.
pub fn valid_trailer(hint: &[u8]) -> (r: bool)
    ensures
        r == spec_valid_trailer(hint@),
{
    if hint.len() < 4 {
        return false;
    }
    let n = hint.len();
    let body = vstd::slice::slice_subrange(hint, 0, n - 4);
    let stored = vstd::bytes::u32_from_le_bytes(vstd::slice::slice_subrange(hint, n - 4, n));
    let computed = crate::checksum::xxhash32(body);
    let r = stored == computed;
    proof {
        vstd::bytes::lemma_auto_spec_u32_to_from_le_bytes();
        let tr = hint@.subrange(hint@.len() - 4, hint@.len() as int);
        assert(stored == vstd::bytes::spec_u32_from_le_bytes(tr));
        assert(tr.len() == 4);
        if r {
            assert(vstd::bytes::spec_u32_to_le_bytes(vstd::bytes::spec_u32_from_le_bytes(tr))
                == tr);
        } else {
            assert(vstd::bytes::spec_u32_to_le_bytes(computed).len() == 4);
            assert(vstd::bytes::spec_u32_from_le_bytes(
                vstd::bytes::spec_u32_to_le_bytes(computed),
            ) == computed);
        }
    }
    r
}

impl Lsm {
    /// The hint stream of one file: the parsed hints, or `None` where the
    /// body does not parse and the caller must rebuild from the data file.
    pub fn compaction_hints(&self, file_id: u32) -> (r: Result<
        Option<Vec<CompactionHint>>,
        Error,
    >)
        requires
            self.wf(),
        ensures
            !self.has_file(file_id) ==> r == Err::<Option<Vec<CompactionHint>>, Error>(
                Error::InvalidFileId(file_id),
            ),
            self.has_file(file_id) ==> ({
                let parsed = spec_parse_hints(self.file_hint(file_id));
                match parsed {
                    Some(hs) => r matches Ok(o) && o matches Some(v) && v@.len() == hs.len() && (
                    forall|j: int| 0 <= j < hs.len() ==> #[trigger] v@[j]@ == hs[j]) && (forall|
                        j: int,
                    | 0 <= j < hs.len() ==> (#[trigger] v@[j])@.key.len() <= 0xffff),
                    None => r == Ok::<Option<Vec<CompactionHint>>, Error>(None),
                }
            }),
    {
        match self.find_file(file_id) {
            Some(i) => {
                match parse_hint_stream(self.store[i].hint.as_slice()) {
                    Ok(hs) => Ok(Some(hs)),
                    Err(_) => Ok(None),
                }
            },
            None => Err(Error::InvalidFileId(file_id)),
        }
    }
}

} // verus!
