//! The two on-disk record kinds and their byte-level codec.
//!
//! A log record is laid out as
//! `checksum(4) | seq(8) | key_len(2) | value_len(4) | key | value`,
//! every integer little-endian. A value length of `0xffff_ffff` marks a
//! tombstone, and no value bytes follow. The checksum covers every byte
//! after the checksum field itself.
//!
//! A compaction hint is laid out as
//! `seq(8) | key_len(2) | value_len(4) | log_pos(8) | key`,
//! with the same tombstone sentinel and no checksum of its own; the file
//! that holds a hint stream ends with a 4-byte trailing checksum instead.

use vstd::prelude::*;
use vstd::bytes::*;
use vstd::slice::{slice_subrange, slice_to_vec};

use crate::checksum::{xxhash32, xxhash32_of};
use crate::error::Error;

verus! {

/// Bytes in the fixed prefix of a log record.
pub const LOG_STATIC_SIZE: usize = 18;

/// Bytes in the fixed prefix of a compaction hint.
pub const HINT_STATIC_SIZE: usize = 22;

/// The reserved value-length sentinel that marks a tombstone.
pub const LOG_TOMBSTONE: u32 = 0xffff_ffff;

/// The largest value length a record may carry.
pub const MAX_VALUE_SIZE: u32 = 0xffff_fffe;

/// The largest key length a record may carry.
pub const MAX_KEY_SIZE: u16 = 0xffff;

/// One write, as the log stores it: a key, the value written (empty for a
/// tombstone), the global sequence number of the write, and whether the
/// record is a tombstone.
#[derive(Debug)]
pub struct Log {
    pub key: Vec<u8>,
    pub value: Vec<u8>,
    pub seq: u64,
    pub deleted: bool,
}

/// The mathematical content of a log record.
pub ghost struct LogView {
    pub key: Seq<u8>,
    pub value: Seq<u8>,
    pub seq: u64,
    pub deleted: bool,
}

impl View for Log {
    type V = LogView;

    open spec fn view(&self) -> LogView {
        LogView { key: self.key@, value: self.value@, seq: self.seq, deleted: self.deleted }
    }
}

/// The bounds every record written by the engine satisfies: a key of 1 to
/// 65 535 bytes, a value of at most `MAX_VALUE_SIZE` bytes, and no value
/// bytes on a tombstone.
pub open spec fn wf_log(l: LogView) -> bool {
    &&& 1 <= l.key.len() <= MAX_KEY_SIZE as int
    &&& l.value.len() <= MAX_VALUE_SIZE as int
    &&& l.deleted ==> l.value.len() == 0
}

/// The encoded size of a log record.
pub open spec fn spec_log_size(l: LogView) -> int {
    LOG_STATIC_SIZE + l.key.len() + l.value.len()
}

/// The value-length field a record carries: the tombstone sentinel for a
/// deletion, the value length otherwise.
pub open spec fn spec_value_field(l: LogView) -> u32 {
    if l.deleted {
        LOG_TOMBSTONE
    } else {
        l.value.len() as u32
    }
}

/// Every byte of a log record after the checksum field.
pub open spec fn spec_log_body(l: LogView) -> Seq<u8> {
    spec_u64_to_le_bytes(l.seq) + spec_u16_to_le_bytes(l.key.len() as u16)
        + spec_u32_to_le_bytes(spec_value_field(l)) + l.key + l.value
}

/// The full encoding of a log record: the checksum of the body, then the body.
pub open spec fn spec_log_encoding(l: LogView) -> Seq<u8> {
    spec_u32_to_le_bytes(xxhash32_of(spec_log_body(l))) + spec_log_body(l)
}

/// The checksum a record at `pos` claims for itself.
pub open spec fn spec_stored_sum(data: Seq<u8>, pos: int) -> u32 {
    spec_u32_from_le_bytes(data.subrange(pos, pos + 4))
}

/// The sequence number of the record at `pos`.
pub open spec fn spec_seq_at(data: Seq<u8>, pos: int) -> u64 {
    spec_u64_from_le_bytes(data.subrange(pos + 4, pos + 12))
}

/// The key length field of the record at `pos`.
pub open spec fn spec_key_len_at(data: Seq<u8>, pos: int) -> u16 {
    spec_u16_from_le_bytes(data.subrange(pos + 12, pos + 14))
}

/// The raw value-length field of the record at `pos`.
pub open spec fn spec_value_field_at(data: Seq<u8>, pos: int) -> u32 {
    spec_u32_from_le_bytes(data.subrange(pos + 14, pos + 18))
}

/// The number of value bytes the record at `pos` carries.
pub open spec fn spec_value_len_at(data: Seq<u8>, pos: int) -> int {
    if spec_value_field_at(data, pos) == LOG_TOMBSTONE {
        0
    } else {
        spec_value_field_at(data, pos) as int
    }
}

/// The total encoded size of the record at `pos`, as its header states it.
pub open spec fn spec_log_total_at(data: Seq<u8>, pos: int) -> int {
    LOG_STATIC_SIZE + spec_key_len_at(data, pos) as int + spec_value_len_at(data, pos)
}

/// Whether `data` holds enough bytes at `pos` for the record the header
/// describes.
pub open spec fn spec_log_fits(data: Seq<u8>, pos: int) -> bool {
    &&& 0 <= pos
    &&& pos + LOG_STATIC_SIZE <= data.len()
    &&& pos + spec_log_total_at(data, pos) <= data.len()
}

/// The record the bytes at `pos` describe, checksum aside.
pub open spec fn spec_log_at(data: Seq<u8>, pos: int) -> LogView {
    let key_end = pos + LOG_STATIC_SIZE + spec_key_len_at(data, pos) as int;
    LogView {
        key: data.subrange(pos + LOG_STATIC_SIZE as int, key_end),
        value: data.subrange(key_end, key_end + spec_value_len_at(data, pos)),
        seq: spec_seq_at(data, pos),
        deleted: spec_value_field_at(data, pos) == LOG_TOMBSTONE,
    }
}

/// The bytes the checksum of the record at `pos` covers.
pub open spec fn spec_log_sum_input(data: Seq<u8>, pos: int) -> Seq<u8> {
    data.subrange(pos + 4, pos + spec_log_total_at(data, pos))
}

/// Whether the stored checksum of the record at `pos` matches its bytes.
pub open spec fn spec_log_clean(data: Seq<u8>, pos: int) -> bool {
    spec_stored_sum(data, pos) == xxhash32_of(spec_log_sum_input(data, pos))
}

/// A record that fits, carries a non-empty key, and passes its checksum:
/// exactly the records decoding accepts.
pub open spec fn spec_log_valid(data: Seq<u8>, pos: int) -> bool {
    &&& spec_log_fits(data, pos)
    &&& spec_key_len_at(data, pos) != 0
    &&& spec_log_clean(data, pos)
}

impl Log {
    /// A live record, once the key and value bounds have been checked.
    pub fn new(seq: u64, key: Vec<u8>, value: Vec<u8>) -> (r: Result<Log, Error>)
        ensures
            ({
                if key@.len() == 0 || key@.len() > MAX_KEY_SIZE as int {
                    r == Err::<Log, Error>(Error::InvalidKeySize(key@.len() as usize))
                } else if value@.len() > MAX_VALUE_SIZE as int {
                    r == Err::<Log, Error>(Error::InvalidValueSize(value@.len() as usize))
                } else {
                    &&& r is Ok
                    &&& r->Ok_0@ == (LogView { key: key@, value: value@, seq, deleted: false })
                    &&& wf_log(r->Ok_0@)
                }
            }),
    {
        if key.len() == 0 || key.len() > MAX_KEY_SIZE as usize {
            return Err(Error::InvalidKeySize(key.len()));
        }
        if value.len() as u64 > MAX_VALUE_SIZE as u64 {
            return Err(Error::InvalidValueSize(value.len()));
        }
        Ok(Log { key, value, seq, deleted: false })
    }

    /// A tombstone for `key`.
    pub fn deleted(seq: u64, key: Vec<u8>) -> (r: Log)
        ensures
            r@ == (LogView { key: key@, value: Seq::<u8>::empty(), seq, deleted: true }),
    {
        Log { key, value: Vec::new(), seq, deleted: true }
    }

    /// The encoded size of this record.
    pub fn size(&self) -> (r: u64)
        requires
            wf_log(self@),
        ensures
            r == spec_log_size(self@),
    {
        LOG_STATIC_SIZE as u64 + self.key.len() as u64 + self.value.len() as u64
    }

    /// Append the encoding of this record to `out`.
    pub fn write_bytes(&self, out: &mut Vec<u8>)
        requires
            wf_log(self@),
        ensures
            final(out)@ == old(out)@ + spec_log_encoding(self@),
    {
        let mut body: Vec<u8> = Vec::new();
        let mut piece = u64_to_le_bytes(self.seq);
        body.append(&mut piece);
        let mut piece = u16_to_le_bytes(self.key.len() as u16);
        body.append(&mut piece);
        let value_field: u32 = if self.deleted {
            LOG_TOMBSTONE
        } else {
            self.value.len() as u32
        };
        let mut piece = u32_to_le_bytes(value_field);
        body.append(&mut piece);
        body.extend_from_slice(self.key.as_slice());
        body.extend_from_slice(self.value.as_slice());
        assert(body@ =~= spec_log_body(self@));
        let sum = xxhash32(body.as_slice());
        let mut head = u32_to_le_bytes(sum);
        out.append(&mut head);
        out.append(&mut body);
        assert(out@ =~= old(out)@ + spec_log_encoding(self@));
    }

    /// Decode the record at `pos`. A truncated record is a short read; a
    /// checksum mismatch reports the stored and the recomputed digest.
    pub fn from_read(data: &[u8], pos: usize) -> (r: Result<Log, Error>)
        ensures
            ({
                let d = data@;
                let p = pos as int;
                if p + LOG_STATIC_SIZE > d.len() {
                    r matches Err(e) && e is Io
                } else if spec_key_len_at(d, p) == 0 {
                    r == Err::<Log, Error>(Error::InvalidKeySize(0usize))
                } else if !spec_log_fits(d, p) {
                    r matches Err(e) && e is Io
                } else if !spec_log_clean(d, p) {
                    r == Err::<Log, Error>(Error::InvalidChecksum {
                        expected: spec_stored_sum(d, p),
                        found: xxhash32_of(spec_log_sum_input(d, p)),
                    })
                } else {
                    r matches Ok(l) && l@ == spec_log_at(d, p)
                }
            }),
    {
        let n = data.len();
        if pos > n || n - pos < LOG_STATIC_SIZE {
            return Err(Error::Io("short read in log record header".to_owned()));
        }
        let stored = u32_from_le_bytes(slice_subrange(data, pos, pos + 4));
        let seq = u64_from_le_bytes(slice_subrange(data, pos + 4, pos + 12));
        let key_len = u16_from_le_bytes(slice_subrange(data, pos + 12, pos + 14)) as usize;
        let value_field = u32_from_le_bytes(slice_subrange(data, pos + 14, pos + 18));
        if key_len == 0 {
            return Err(Error::InvalidKeySize(0));
        }
        let deleted = value_field == LOG_TOMBSTONE;
        let value_len: usize = if deleted {
            0
        } else {
            value_field as usize
        };
        let rem = n - pos - LOG_STATIC_SIZE;
        if (rem as u64) < key_len as u64 + value_len as u64 {
            return Err(Error::Io("short read in log record payload".to_owned()));
        }
        let key_start = pos + LOG_STATIC_SIZE;
        let key_end = key_start + key_len;
        let value_end = key_end + value_len;
        let key = slice_to_vec(slice_subrange(data, key_start, key_end));
        let value = slice_to_vec(slice_subrange(data, key_end, value_end));
        let found = xxhash32(slice_subrange(data, pos + 4, value_end));
        if found != stored {
            return Err(Error::InvalidChecksum { expected: stored, found });
        }
        Ok(Log { key, value, seq, deleted })
    }
}

/// One compaction hint: where in its data file the record of a key lies.
#[derive(Debug)]
pub struct CompactionHint {
    pub key: Vec<u8>,
    pub log_pos: u64,
    pub value_size: u32,
    pub seq: u64,
    pub deleted: bool,
}

/// The mathematical content of a compaction hint.
pub ghost struct HintView {
    pub key: Seq<u8>,
    pub log_pos: u64,
    pub value_size: u32,
    pub seq: u64,
    pub deleted: bool,
}

impl View for CompactionHint {
    type V = HintView;

    open spec fn view(&self) -> HintView {
        HintView {
            key: self.key@,
            log_pos: self.log_pos,
            value_size: self.value_size,
            seq: self.seq,
            deleted: self.deleted,
        }
    }
}

/// The bounds every hint written by the engine satisfies.
pub open spec fn wf_hint(h: HintView) -> bool {
    &&& 1 <= h.key.len() <= MAX_KEY_SIZE as int
    &&& h.value_size <= MAX_VALUE_SIZE
    &&& h.deleted ==> h.value_size == 0
}

/// The hint that describes the log record `l` found at `pos`.
pub open spec fn spec_hint_of(pos: u64, l: LogView) -> HintView {
    HintView {
        key: l.key,
        log_pos: pos,
        value_size: l.value.len() as u32,
        seq: l.seq,
        deleted: l.deleted,
    }
}

/// The full encoding of a compaction hint.
pub open spec fn spec_hint_encoding(h: HintView) -> Seq<u8> {
    spec_u64_to_le_bytes(h.seq) + spec_u16_to_le_bytes(h.key.len() as u16)
        + spec_u32_to_le_bytes(
        if h.deleted {
            LOG_TOMBSTONE
        } else {
            h.value_size
        },
    ) + spec_u64_to_le_bytes(h.log_pos) + h.key
}

/// The encoded size of a compaction hint.
pub open spec fn spec_hint_size(h: HintView) -> int {
    HINT_STATIC_SIZE + h.key.len()
}

/// The sequence number field of the hint at `pos`.
pub open spec fn spec_hint_seq_at(data: Seq<u8>, pos: int) -> u64 {
    spec_u64_from_le_bytes(data.subrange(pos, pos + 8))
}

/// The key length field of the hint at `pos`.
pub open spec fn spec_hint_key_len_at(data: Seq<u8>, pos: int) -> u16 {
    spec_u16_from_le_bytes(data.subrange(pos + 8, pos + 10))
}

/// The raw value-length field of the hint at `pos`.
pub open spec fn spec_hint_value_field_at(data: Seq<u8>, pos: int) -> u32 {
    spec_u32_from_le_bytes(data.subrange(pos + 10, pos + 14))
}

/// The log-position field of the hint at `pos`.
pub open spec fn spec_hint_pos_at(data: Seq<u8>, pos: int) -> u64 {
    spec_u64_from_le_bytes(data.subrange(pos + 14, pos + 22))
}

/// The total encoded size of the hint at `pos`.
pub open spec fn spec_hint_total_at(data: Seq<u8>, pos: int) -> int {
    HINT_STATIC_SIZE + spec_hint_key_len_at(data, pos) as int
}

/// Whether `data` holds enough bytes at `pos` for the hint the header
/// describes.
pub open spec fn spec_hint_fits(data: Seq<u8>, pos: int) -> bool {
    &&& 0 <= pos
    &&& pos + HINT_STATIC_SIZE <= data.len()
    &&& pos + spec_hint_total_at(data, pos) <= data.len()
}

/// The hint the bytes at `pos` describe.
pub open spec fn spec_hint_at(data: Seq<u8>, pos: int) -> HintView {
    let deleted = spec_hint_value_field_at(data, pos) == LOG_TOMBSTONE;
    HintView {
        key: data.subrange(
            pos + HINT_STATIC_SIZE as int,
            pos + HINT_STATIC_SIZE + spec_hint_key_len_at(data, pos) as int,
        ),
        log_pos: spec_hint_pos_at(data, pos),
        value_size: if deleted {
            0
        } else {
            spec_hint_value_field_at(data, pos)
        },
        seq: spec_hint_seq_at(data, pos),
        deleted,
    }
}

impl CompactionHint {
    /// The hint for the record `e` written at `log_pos`, borrowing nothing.
    pub fn new(e: &Log, log_pos: u64) -> (r: CompactionHint)
        requires
            e.value@.len() <= MAX_VALUE_SIZE as int,
        ensures
            r@ == spec_hint_of(log_pos, e@),
    {
        CompactionHint {
            key: slice_to_vec(e.key.as_slice()),
            log_pos,
            value_size: e.value.len() as u32,
            seq: e.seq,
            deleted: e.deleted,
        }
    }

    /// The hint for the record `e` written at `log_pos`, consuming the record.
    pub fn from(e: Log, log_pos: u64) -> (r: CompactionHint)
        requires
            e.value@.len() <= MAX_VALUE_SIZE as int,
        ensures
            r@ == spec_hint_of(log_pos, e@),
    {
        CompactionHint {
            value_size: e.value.len() as u32,
            key: e.key,
            log_pos,
            seq: e.seq,
            deleted: e.deleted,
        }
    }

    /// The encoded size of the log record this hint points at, used for
    /// dead-bytes accounting.
    pub fn log_size(&self) -> (r: u64)
        requires
            self@.key.len() <= MAX_KEY_SIZE as int,
        ensures
            r == LOG_STATIC_SIZE + self@.key.len() + self@.value_size,
    {
        LOG_STATIC_SIZE as u64 + self.key.len() as u64 + self.value_size as u64
    }

    /// Append the encoding of this hint to `out`.
    pub fn write_bytes(&self, out: &mut Vec<u8>)
        requires
            wf_hint(self@),
        ensures
            final(out)@ == old(out)@ + spec_hint_encoding(self@),
    {
        let mut piece = u64_to_le_bytes(self.seq);
        out.append(&mut piece);
        let mut piece = u16_to_le_bytes(self.key.len() as u16);
        out.append(&mut piece);
        let value_field: u32 = if self.deleted {
            LOG_TOMBSTONE
        } else {
            self.value_size
        };
        let mut piece = u32_to_le_bytes(value_field);
        out.append(&mut piece);
        let mut piece = u64_to_le_bytes(self.log_pos);
        out.append(&mut piece);
        out.extend_from_slice(self.key.as_slice());
        assert(out@ =~= old(out)@ + spec_hint_encoding(self@));
    }

    /// Decode the hint at `pos`. A truncated hint is a short read.
    pub fn from_read(data: &[u8], pos: usize) -> (r: Result<CompactionHint, Error>)
        ensures
            ({
                let d = data@;
                let p = pos as int;
                if p + HINT_STATIC_SIZE > d.len() {
                    r matches Err(e) && e is Io
                } else if !spec_hint_fits(d, p) {
                    r matches Err(e) && e is Io
                } else {
                    r matches Ok(h) && h@ == spec_hint_at(d, p)
                }
            }),
    {
        let n = data.len();
        if pos > n || n - pos < HINT_STATIC_SIZE {
            return Err(Error::Io("short read in hint header".to_owned()));
        }
        let seq = u64_from_le_bytes(slice_subrange(data, pos, pos + 8));
        let key_len = u16_from_le_bytes(slice_subrange(data, pos + 8, pos + 10)) as usize;
        let value_field = u32_from_le_bytes(slice_subrange(data, pos + 10, pos + 14));
        let log_pos = u64_from_le_bytes(slice_subrange(data, pos + 14, pos + 22));
        let rem = n - pos - HINT_STATIC_SIZE;
        if rem < key_len {
            return Err(Error::Io("short read in hint key".to_owned()));
        }
        let key_start = pos + HINT_STATIC_SIZE;
        let key = slice_to_vec(slice_subrange(data, key_start, key_start + key_len));
        let deleted = value_field == LOG_TOMBSTONE;
        Ok(CompactionHint {
            key,
            log_pos,
            value_size: if deleted {
                0
            } else {
                value_field
            },
            seq,
            deleted,
        })
    }
}

/// The records of a data file from `pos` on, each with its offset. The scan
/// stops at the first byte position that does not hold a valid record, so a
/// torn tail truncates the stream instead of poisoning it.
pub open spec fn spec_scan_from(data: Seq<u8>, pos: int) -> Seq<(int, LogView)>
    decreases data.len() - pos,
{
    if pos < 0 || pos >= data.len() || !spec_log_valid(data, pos) {
        Seq::empty()
    } else {
        seq![(pos, spec_log_at(data, pos))] + spec_scan_from(
            data,
            pos + spec_log_total_at(data, pos),
        )
    }
}

/// The records of a whole data file.
pub open spec fn spec_scan(data: Seq<u8>) -> Seq<(int, LogView)> {
    spec_scan_from(data, 0)
}

/// The byte position at which the scan from `pos` stops.
pub open spec fn spec_scan_end_from(data: Seq<u8>, pos: int) -> int
    decreases data.len() - pos,
{
    if pos < 0 || pos >= data.len() || !spec_log_valid(data, pos) {
        pos
    } else {
        spec_scan_end_from(data, pos + spec_log_total_at(data, pos))
    }
}

/// Whether scanning consumes the whole file: no torn tail, no trailing junk.
pub open spec fn spec_scan_complete(data: Seq<u8>) -> bool {
    spec_scan_end_from(data, 0) == data.len()
}

/// The hint stream that mirrors a data file record for record.
pub open spec fn spec_hints_of_scan(data: Seq<u8>) -> Seq<HintView> {
    spec_scan(data).map_values(|pl: (int, LogView)| spec_hint_of(pl.0 as u64, pl.1))
}

/// The hints of a hint-file body from `pos` on, or `None` on a malformed
/// body.
pub open spec fn spec_parse_hints_from(body: Seq<u8>, pos: int) -> Option<Seq<HintView>>
    decreases body.len() - pos,
{
    if pos < 0 {
        None
    } else if pos >= body.len() {
        Some(Seq::empty())
    } else if !spec_hint_fits(body, pos) {
        None
    } else {
        match spec_parse_hints_from(body, pos + spec_hint_total_at(body, pos)) {
            Some(rest) => Some(seq![spec_hint_at(body, pos)] + rest),
            None => None,
        }
    }
}

/// The hints of a whole hint-file body.
pub open spec fn spec_parse_hints(body: Seq<u8>) -> Option<Seq<HintView>> {
    spec_parse_hints_from(body, 0)
}

/// The encoding of a record is exactly as long as its stated size.
pub proof fn lemma_log_encoding_len(l: LogView)
    ensures
        spec_log_encoding(l).len() == spec_log_size(l),
{
    lemma_auto_spec_u64_to_from_le_bytes();
    lemma_auto_spec_u32_to_from_le_bytes();
    lemma_auto_spec_u16_to_from_le_bytes();
}

/// Decoding inverts encoding: a buffer that holds the encoding of a
/// well-formed record at `pos` decodes to that record.
pub proof fn lemma_log_roundtrip(data: Seq<u8>, pos: int, l: LogView)
    requires
        wf_log(l),
        0 <= pos,
        pos + spec_log_size(l) <= data.len(),
        data.subrange(pos, pos + spec_log_size(l)) == spec_log_encoding(l),
    ensures
        spec_log_valid(data, pos),
        spec_log_total_at(data, pos) == spec_log_size(l),
        spec_log_at(data, pos) == l,
{
    lemma_auto_spec_u64_to_from_le_bytes();
    lemma_auto_spec_u32_to_from_le_bytes();
    lemma_auto_spec_u16_to_from_le_bytes();
    let body = spec_log_body(l);
    let size = spec_log_size(l);
    let enc = spec_log_encoding(l);
    let p0 = spec_u32_to_le_bytes(xxhash32_of(body));
    let p1 = spec_u64_to_le_bytes(l.seq);
    let p2 = spec_u16_to_le_bytes(l.key.len() as u16);
    let p3 = spec_u32_to_le_bytes(spec_value_field(l));
    let klen = l.key.len() as int;
    assert(enc.len() == size);
    assert forall|j: int| #![trigger data[j]] pos <= j < pos + size implies {
        &&& (j < pos + 4 ==> data[j] == p0[j - pos])
        &&& (pos + 4 <= j < pos + 12 ==> data[j] == p1[j - pos - 4])
        &&& (pos + 12 <= j < pos + 14 ==> data[j] == p2[j - pos - 12])
        &&& (pos + 14 <= j < pos + 18 ==> data[j] == p3[j - pos - 14])
        &&& (pos + 18 <= j < pos + 18 + klen ==> data[j] == l.key[j - pos - 18])
        &&& (pos + 18 + klen <= j ==> data[j] == l.value[j - pos - 18 - klen])
    } by {
        let i = j - pos;
        assert(data.subrange(pos, pos + size)[i] == enc[i]);
        assert(enc[i] == if i < 4 {
            p0[i]
        } else {
            body[i - 4]
        });
        let b = i - 4;
        assert(4 <= i ==> body[b] == if b < 14 + klen {
            (p1 + p2 + p3 + l.key)[b]
        } else {
            l.value[b - 14 - klen]
        });
        assert(4 <= i && b < 14 + klen ==> (p1 + p2 + p3 + l.key)[b] == if b < 14 {
            (p1 + p2 + p3)[b]
        } else {
            l.key[b - 14]
        });
        assert(4 <= i && b < 14 ==> (p1 + p2 + p3)[b] == if b < 10 {
            (p1 + p2)[b]
        } else {
            p3[b - 10]
        });
        assert(4 <= i && b < 10 ==> (p1 + p2)[b] == if b < 8 {
            p1[b]
        } else {
            p2[b - 8]
        });
    }
    assert(data.subrange(pos, pos + 4) =~= spec_u32_to_le_bytes(xxhash32_of(body)));
    assert(data.subrange(pos + 4, pos + 12) =~= spec_u64_to_le_bytes(l.seq));
    assert(data.subrange(pos + 12, pos + 14) =~= spec_u16_to_le_bytes(l.key.len() as u16));
    assert(data.subrange(pos + 14, pos + 18) =~= spec_u32_to_le_bytes(spec_value_field(l)));
    assert(spec_key_len_at(data, pos) == l.key.len() as u16);
    assert(spec_value_field_at(data, pos) == spec_value_field(l));
    assert(spec_value_len_at(data, pos) == l.value.len());
    assert(spec_log_total_at(data, pos) == size);
    let key_end = pos + LOG_STATIC_SIZE + l.key.len();
    assert(data.subrange(pos + LOG_STATIC_SIZE as int, key_end) =~= l.key);
    assert(data.subrange(key_end, key_end + l.value.len()) =~= l.value);
    assert(spec_log_sum_input(data, pos) =~= body);
}

/// Validity of a record is a fact about its own bytes: appending to the
/// buffer changes nothing about a record that already fits.
pub proof fn lemma_log_prefix_stable(data: Seq<u8>, ext: Seq<u8>, pos: int)
    requires
        spec_log_fits(data, pos),
    ensures
        spec_log_fits(data + ext, pos),
        spec_log_total_at(data + ext, pos) == spec_log_total_at(data, pos),
        spec_log_at(data + ext, pos) == spec_log_at(data, pos),
        spec_log_valid(data + ext, pos) == spec_log_valid(data, pos),
{
    let d2 = data + ext;
    assert(d2.subrange(pos, pos + 4) =~= data.subrange(pos, pos + 4));
    assert(d2.subrange(pos + 4, pos + 12) =~= data.subrange(pos + 4, pos + 12));
    assert(d2.subrange(pos + 12, pos + 14) =~= data.subrange(pos + 12, pos + 14));
    assert(d2.subrange(pos + 14, pos + 18) =~= data.subrange(pos + 14, pos + 18));
    assert(spec_log_total_at(d2, pos) == spec_log_total_at(data, pos));
    let key_end = pos + LOG_STATIC_SIZE + spec_key_len_at(data, pos) as int;
    assert(d2.subrange(pos + LOG_STATIC_SIZE as int, key_end) =~= data.subrange(
        pos + LOG_STATIC_SIZE as int,
        key_end,
    ));
    assert(d2.subrange(key_end, key_end + spec_value_len_at(data, pos)) =~= data.subrange(
        key_end,
        key_end + spec_value_len_at(data, pos),
    ));
    assert(d2.subrange(pos + 4, pos + spec_log_total_at(d2, pos)) =~= data.subrange(
        pos + 4,
        pos + spec_log_total_at(data, pos),
    ));
}

/// Decoding inverts encoding for hints as well.
pub proof fn lemma_hint_roundtrip(data: Seq<u8>, pos: int, h: HintView)
    requires
        wf_hint(h),
        0 <= pos,
        pos + spec_hint_size(h) <= data.len(),
        data.subrange(pos, pos + spec_hint_size(h)) == spec_hint_encoding(h),
    ensures
        spec_hint_fits(data, pos),
        spec_hint_total_at(data, pos) == spec_hint_size(h),
        spec_hint_at(data, pos) == h,
{
    lemma_auto_spec_u64_to_from_le_bytes();
    lemma_auto_spec_u32_to_from_le_bytes();
    lemma_auto_spec_u16_to_from_le_bytes();
    let enc = spec_hint_encoding(h);
    let size = spec_hint_size(h);
    let p1 = spec_u64_to_le_bytes(h.seq);
    let p2 = spec_u16_to_le_bytes(h.key.len() as u16);
    let p3 = spec_u32_to_le_bytes(
        if h.deleted {
            LOG_TOMBSTONE
        } else {
            h.value_size
        },
    );
    let p4 = spec_u64_to_le_bytes(h.log_pos);
    assert(enc.len() == size);
    assert forall|j: int| #![trigger data[j]] pos <= j < pos + size implies {
        &&& (j < pos + 8 ==> data[j] == p1[j - pos])
        &&& (pos + 8 <= j < pos + 10 ==> data[j] == p2[j - pos - 8])
        &&& (pos + 10 <= j < pos + 14 ==> data[j] == p3[j - pos - 10])
        &&& (pos + 14 <= j < pos + 22 ==> data[j] == p4[j - pos - 14])
        &&& (pos + 22 <= j ==> data[j] == h.key[j - pos - 22])
    } by {
        let i = j - pos;
        assert(data.subrange(pos, pos + size)[i] == enc[i]);
        assert(enc[i] == if i < 22 {
            (p1 + p2 + p3 + p4)[i]
        } else {
            h.key[i - 22]
        });
        assert(i < 22 ==> (p1 + p2 + p3 + p4)[i] == if i < 14 {
            (p1 + p2 + p3)[i]
        } else {
            p4[i - 14]
        });
        assert(i < 14 ==> (p1 + p2 + p3)[i] == if i < 10 {
            (p1 + p2)[i]
        } else {
            p3[i - 10]
        });
        assert(i < 10 ==> (p1 + p2)[i] == if i < 8 {
            p1[i]
        } else {
            p2[i - 8]
        });
    }
    assert(data.subrange(pos, pos + 8) =~= spec_u64_to_le_bytes(h.seq));
    assert(data.subrange(pos + 8, pos + 10) =~= spec_u16_to_le_bytes(h.key.len() as u16));
    assert(data.subrange(pos + 10, pos + 14) =~= spec_u32_to_le_bytes(
        if h.deleted {
            LOG_TOMBSTONE
        } else {
            h.value_size
        },
    ));
    assert(data.subrange(pos + 14, pos + 22) =~= spec_u64_to_le_bytes(h.log_pos));
    assert(spec_hint_key_len_at(data, pos) == h.key.len() as u16);
    assert(data.subrange(
        pos + HINT_STATIC_SIZE as int,
        pos + HINT_STATIC_SIZE + h.key.len(),
    ) =~= h.key);
}

/// Fitting is a fact about a hint's own bytes, as for log records.
pub proof fn lemma_hint_prefix_stable(body: Seq<u8>, ext: Seq<u8>, pos: int)
    requires
        spec_hint_fits(body, pos),
    ensures
        spec_hint_fits(body + ext, pos),
        spec_hint_total_at(body + ext, pos) == spec_hint_total_at(body, pos),
        spec_hint_at(body + ext, pos) == spec_hint_at(body, pos),
{
    let d2 = body + ext;
    assert(d2.subrange(pos, pos + 8) =~= body.subrange(pos, pos + 8));
    assert(d2.subrange(pos + 8, pos + 10) =~= body.subrange(pos + 8, pos + 10));
    assert(d2.subrange(pos + 10, pos + 14) =~= body.subrange(pos + 10, pos + 14));
    assert(d2.subrange(pos + 14, pos + 22) =~= body.subrange(pos + 14, pos + 22));
    let key_end = pos + HINT_STATIC_SIZE + spec_hint_key_len_at(body, pos) as int;
    assert(d2.subrange(pos + HINT_STATIC_SIZE as int, key_end) =~= body.subrange(
        pos + HINT_STATIC_SIZE as int,
        key_end,
    ));
}

/// Appending one well-formed hint to a parseable body extends the parse by
/// exactly that hint.
pub proof fn lemma_parse_hints_from_extend(body: Seq<u8>, ext: Seq<u8>, h: HintView, pos: int)
    requires
        0 <= pos <= body.len(),
        spec_parse_hints_from(body, pos) is Some,
        wf_hint(h),
        ext == spec_hint_encoding(h),
    ensures
        spec_parse_hints_from(body + ext, pos) == Some(
            spec_parse_hints_from(body, pos)->Some_0 + seq![h],
        ),
    decreases body.len() - pos,
{
    lemma_auto_spec_u64_to_from_le_bytes();
    lemma_auto_spec_u32_to_from_le_bytes();
    lemma_auto_spec_u16_to_from_le_bytes();
    let d2 = body + ext;
    assert(ext.len() == spec_hint_size(h));
    if pos == body.len() {
        assert(d2.subrange(pos, pos + spec_hint_size(h)) =~= ext);
        lemma_hint_roundtrip(d2, pos, h);
        let next = pos + spec_hint_total_at(d2, pos);
        assert(next == d2.len());
        assert(spec_parse_hints_from(d2, next) == Some(Seq::<HintView>::empty()));
        assert(spec_parse_hints_from(d2, pos) == Some(seq![h] + Seq::<HintView>::empty()));
        assert(seq![h] + Seq::<HintView>::empty() =~= seq![h]);
        assert(spec_parse_hints_from(body, pos)->Some_0 + seq![h] =~= seq![h]);
    } else {
        assert(spec_hint_fits(body, pos));
        lemma_hint_prefix_stable(body, ext, pos);
        let next = pos + spec_hint_total_at(body, pos);
        lemma_parse_hints_from_extend(body, ext, h, next);
        assert(spec_parse_hints_from(body, pos)->Some_0 + seq![h] =~= seq![
            spec_hint_at(body, pos),
        ] + (spec_parse_hints_from(body, next)->Some_0 + seq![h]));
    }
}

/// Every item of a scan is a valid record at its own offset, wholly inside
/// the buffer.
pub proof fn lemma_scan_item(data: Seq<u8>, pos: int, j: int)
    requires
        0 <= pos,
        0 <= j < spec_scan_from(data, pos).len(),
    ensures
        ({
            let item = spec_scan_from(data, pos)[j];
            &&& pos <= item.0
            &&& spec_log_valid(data, item.0)
            &&& spec_log_at(data, item.0) == item.1
            &&& item.0 + spec_log_total_at(data, item.0) <= data.len()
        }),
    decreases data.len() - pos,
{
    if j > 0 {
        lemma_scan_item(data, pos + spec_log_total_at(data, pos), j - 1);
    }
}

/// Decode a whole hint-file body, strictly: any undecodable byte position
/// fails the call.
pub fn parse_hint_stream(body: &[u8]) -> (r: Result<Vec<CompactionHint>, Error>)
    ensures
        match spec_parse_hints(body@) {
            Some(hs) => r is Ok && r->Ok_0@.len() == hs.len() && (forall|j: int|
                0 <= j < hs.len() ==> #[trigger] r->Ok_0@[j]@ == hs[j]) && (forall|j: int|
                0 <= j < hs.len() ==> (#[trigger] hs[j]).key.len() <= MAX_KEY_SIZE as int),
            None => r is Err,
        },
{
    let n = body.len();
    let mut acc: Vec<CompactionHint> = Vec::new();
    let mut pos: usize = 0;
    while pos < n
        invariant
            n == body@.len(),
            pos <= n,
            ({
                let whole = spec_parse_hints(body@);
                match spec_parse_hints_from(body@, pos as int) {
                    Some(rest) => whole is Some && whole->Some_0.len() == acc@.len() + rest.len()
                        && (forall|j: int|
                        0 <= j < acc@.len() ==> #[trigger] whole->Some_0[j] == acc@[j]@) && (
                    forall|j: int|
                        0 <= j < rest.len() ==> #[trigger] whole->Some_0[acc@.len() + j] == rest[j])
                        && (forall|j: int|
                        0 <= j < acc@.len() ==> (#[trigger] acc@[j])@.key.len() <= MAX_KEY_SIZE as int),
                    None => whole is None,
                }
            }),
        decreases n - pos,
    {
        let h = match CompactionHint::from_read(body, pos) {
            Ok(h) => h,
            Err(e) => {
                return Err(e);
            },
        };
        let step = HINT_STATIC_SIZE + h.key.len();
        proof {
            assert(spec_hint_fits(body@, pos as int));
            assert(spec_hint_total_at(body@, pos as int) == step);
            if spec_parse_hints_from(body@, pos as int) is Some {
                let whole = spec_parse_hints(body@)->Some_0;
                let rest = spec_parse_hints_from(body@, pos as int)->Some_0;
                let rest2 = spec_parse_hints_from(body@, pos + step as int)->Some_0;
                assert(rest =~= seq![spec_hint_at(body@, pos as int)] + rest2);
                assert(whole[acc@.len() as int + 0] == rest[0]);
                assert(rest[0] == spec_hint_at(body@, pos as int));
                assert forall|j: int| 0 <= j < rest2.len() implies whole[acc@.len() as int + 1 + j]
                    == rest2[j] by {
                    assert(whole[acc@.len() as int + (j + 1)] == rest[j + 1]);
                    assert(rest[j + 1] == rest2[j]);
                }
            } else {
                assert(spec_parse_hints_from(body@, pos + step as int) is None);
            }
        }
        acc.push(h);
        pos = pos + step;
    }
    proof {
        assert(spec_parse_hints_from(body@, pos as int) == Some(Seq::<HintView>::empty()));
        let whole = spec_parse_hints(body@);
        assert(whole is Some && whole->Some_0.len() == acc@.len());
        assert forall|j: int| 0 <= j < acc@.len() implies #[trigger] whole->Some_0[j]
            == acc@[j]@ by {}
        assert forall|j: int| 0 <= j < whole->Some_0.len() implies (#[trigger] whole->Some_0[j]).key.len()
            <= MAX_KEY_SIZE as int by {
            assert(whole->Some_0[j] == acc@[j]@);
            assert(acc@[j]@.key.len() <= MAX_KEY_SIZE as int);
        }
    }
    Ok(acc)
}

/// Scan a data file from the front, leniently: decoding stops at the first
/// byte position that does not hold a valid record, and the position where
/// it stopped is returned with the records.
pub fn scan_records(data: &[u8]) -> (r: (Vec<(u64, Log)>, usize))
    ensures
        ({
            let scanned = spec_scan(data@);
            &&& r.1 == spec_scan_end_from(data@, 0)
            &&& r.0@.len() == scanned.len()
            &&& forall|j: int|
                0 <= j < scanned.len() ==> (#[trigger] r.0@[j]).0 == scanned[j].0 && r.0@[j].1@
                    == scanned[j].1
        }),
{
    let n = data.len();
    let mut acc: Vec<(u64, Log)> = Vec::new();
    let mut pos: usize = 0;
    loop
        invariant
            n == data@.len(),
            pos <= n,
            ({
                let whole = spec_scan(data@);
                let rest = spec_scan_from(data@, pos as int);
                &&& spec_scan_end_from(data@, 0) == spec_scan_end_from(data@, pos as int)
                &&& whole.len() == acc@.len() + rest.len()
                &&& (forall|j: int|
                    0 <= j < acc@.len() ==> #[trigger] whole[j] == ((acc@[j].0 as int, acc@[j].1@)))
                &&& (forall|j: int|
                    0 <= j < rest.len() ==> #[trigger] whole[acc@.len() + j] == rest[j])
            }),
        ensures
            pos == spec_scan_end_from(data@, 0),
            ({
                let whole = spec_scan(data@);
                whole.len() == acc@.len() && (forall|j: int|
                    0 <= j < acc@.len() ==> #[trigger] whole[j] == ((acc@[j].0 as int, acc@[j].1@)))
            }),
        decreases n - pos,
    {
        if pos == n {
            proof {
                assert(spec_scan_from(data@, pos as int) =~= Seq::<(int, LogView)>::empty());
                assert(spec_scan_end_from(data@, pos as int) == pos);
            }
            break;
        }
        let l = match Log::from_read(data, pos) {
            Ok(l) => l,
            Err(_) => {
                proof {
                    assert(!spec_log_valid(data@, pos as int));
                    assert(spec_scan_from(data@, pos as int) =~= Seq::<(int, LogView)>::empty());
                    assert(spec_scan_end_from(data@, pos as int) == pos);
                }
                break;
            },
        };
        let step = LOG_STATIC_SIZE + l.key.len() + l.value.len();
        proof {
            assert(spec_log_valid(data@, pos as int));
            assert(spec_log_total_at(data@, pos as int) == step);
            let whole = spec_scan(data@);
            let rest = spec_scan_from(data@, pos as int);
            let rest2 = spec_scan_from(data@, pos + step as int);
            assert(rest =~= seq![(pos as int, spec_log_at(data@, pos as int))] + rest2);
            assert(whole[acc@.len() as int + 0] == rest[0]);
            assert(rest[0] == ((pos as int, spec_log_at(data@, pos as int))));
            assert forall|j: int| 0 <= j < rest2.len() implies whole[acc@.len() as int + 1 + j]
                == rest2[j] by {
                assert(whole[acc@.len() as int + (j + 1)] == rest[j + 1]);
                assert(rest[j + 1] == rest2[j]);
            }
            assert(spec_scan_end_from(data@, pos as int) == spec_scan_end_from(
                data@,
                pos + step as int,
            ));
        }
        acc.push((pos as u64, l));
        pos = pos + step;
    }
    (acc, pos)
}

/// Appending one well-formed record to a fully scanned file extends the scan
/// by exactly that record, and the scan stays complete.
pub proof fn lemma_scan_from_extend(data: Seq<u8>, ext: Seq<u8>, l: LogView, pos: int)
    requires
        0 <= pos <= data.len(),
        spec_scan_end_from(data, pos) == data.len(),
        wf_log(l),
        ext == spec_log_encoding(l),
    ensures
        spec_scan_from(data + ext, pos) == spec_scan_from(data, pos) + seq![
            (data.len() as int, l),
        ],
        spec_scan_end_from(data + ext, pos) == data.len() + ext.len(),
    decreases data.len() - pos,
{
    lemma_auto_spec_u64_to_from_le_bytes();
    lemma_auto_spec_u32_to_from_le_bytes();
    lemma_auto_spec_u16_to_from_le_bytes();
    let d2 = data + ext;
    assert(ext.len() == spec_log_size(l));
    if pos == data.len() {
        assert(d2.subrange(pos, pos + spec_log_size(l)) =~= ext);
        lemma_log_roundtrip(d2, pos, l);
        let next = pos + spec_log_total_at(d2, pos);
        assert(next == d2.len());
        assert(spec_scan_from(d2, next) =~= Seq::<(int, LogView)>::empty());
        assert(spec_scan_end_from(d2, next) == next);
        assert(spec_scan_from(d2, pos) =~= seq![(pos, l)]);
        assert(spec_scan_from(data, pos) =~= Seq::<(int, LogView)>::empty());
    } else {
        // The scan hypothesis forces the record at `pos` to be valid:
        // otherwise the scan would have stopped here, short of the end.
        assert(spec_log_valid(data, pos));
        lemma_log_prefix_stable(data, ext, pos);
        let next = pos + spec_log_total_at(data, pos);
        lemma_scan_from_extend(data, ext, l, next);
        assert(spec_scan_from(d2, pos) =~= spec_scan_from(data, pos) + seq![
            (data.len() as int, l),
        ]);
    }
}

/// The same extension, seen through the hint stream that mirrors the scan.
pub proof fn lemma_hints_of_scan_extend(data: Seq<u8>, ext: Seq<u8>, l: LogView)
    requires
        spec_scan_complete(data),
        wf_log(l),
        ext == spec_log_encoding(l),
    ensures
        spec_scan_complete(data + ext),
        spec_scan(data + ext) == spec_scan(data) + seq![(data.len() as int, l)],
        spec_hints_of_scan(data + ext) == spec_hints_of_scan(data).push(
            spec_hint_of((data.len() as int) as u64, l),
        ),
    decreases data.len(),
{
    lemma_scan_from_extend(data, ext, l, 0);
    lemma_log_encoding_len(l);
    assert(spec_hints_of_scan(data + ext) =~= spec_hints_of_scan(data).push(
        spec_hint_of((data.len() as int) as u64, l),
    ));
}

/// A scan never moves backwards and never runs past the buffer.
pub proof fn lemma_scan_end_bounds(data: Seq<u8>, pos: int)
    requires
        0 <= pos <= data.len(),
    ensures
        pos <= spec_scan_end_from(data, pos) <= data.len(),
    decreases data.len() - pos,
{
    if pos < data.len() && spec_log_valid(data, pos) {
        lemma_scan_end_bounds(data, pos + spec_log_total_at(data, pos));
    }
}

/// Cutting a buffer at the point where its scan stopped keeps every scanned
/// record and makes the scan complete: the torn tail held no record.
pub proof fn lemma_scan_truncate(data: Seq<u8>, e: int, pos: int)
    requires
        0 <= pos <= e <= data.len(),
        spec_scan_end_from(data, pos) == e,
    ensures
        spec_scan_from(data.subrange(0, e), pos) == spec_scan_from(data, pos),
        spec_scan_end_from(data.subrange(0, e), pos) == e,
    decreases data.len() - pos,
{
    let trunc = data.subrange(0, e);
    let tail = data.subrange(e, data.len() as int);
    assert(trunc + tail =~= data);
    if pos == e {
        assert(spec_scan_from(trunc, pos) =~= Seq::<(int, LogView)>::empty());
        if pos < data.len() && spec_log_valid(data, pos) {
            lemma_scan_end_bounds(data, pos + spec_log_total_at(data, pos));
            assert(false);
        }
        assert(spec_scan_from(data, pos) =~= Seq::<(int, LogView)>::empty());
    } else {
        // The scan walked past `pos`, so the record there is valid and ends
        // at or before the cut.
        assert(spec_log_valid(data, pos) && pos < data.len());
        let total = spec_log_total_at(data, pos);
        lemma_scan_end_bounds(data, pos + total);
        assert(pos + total <= e);
        // The record's bytes lie inside the cut, so the truncated buffer
        // judges it the same way.
        assert(trunc.subrange(pos, pos + 4) =~= data.subrange(pos, pos + 4));
        assert(trunc.subrange(pos + 4, pos + 12) =~= data.subrange(pos + 4, pos + 12));
        assert(trunc.subrange(pos + 12, pos + 14) =~= data.subrange(pos + 12, pos + 14));
        assert(trunc.subrange(pos + 14, pos + 18) =~= data.subrange(pos + 14, pos + 18));
        assert(spec_log_total_at(trunc, pos) == total);
        assert(spec_log_fits(trunc, pos));
        let key_end = pos + LOG_STATIC_SIZE + spec_key_len_at(data, pos) as int;
        assert(trunc.subrange(pos + LOG_STATIC_SIZE as int, key_end) =~= data.subrange(
            pos + LOG_STATIC_SIZE as int,
            key_end,
        ));
        assert(trunc.subrange(key_end, key_end + spec_value_len_at(data, pos)) =~= data.subrange(
            key_end,
            key_end + spec_value_len_at(data, pos),
        ));
        assert(trunc.subrange(pos + 4, pos + total) =~= data.subrange(pos + 4, pos + total));
        assert(spec_log_valid(trunc, pos));
        assert(spec_log_at(trunc, pos) == spec_log_at(data, pos));
        lemma_scan_truncate(data, e, pos + total);
        assert(spec_scan_from(trunc, pos) =~= spec_scan_from(data, pos));
    }
}

/// The hint stream of a buffer cut at its scan end mirrors the full
/// buffer's.
pub proof fn lemma_hints_of_scan_truncate(data: Seq<u8>)
    ensures
        spec_scan_complete(data.subrange(0, spec_scan_end_from(data, 0))),
        spec_scan(data.subrange(0, spec_scan_end_from(data, 0))) == spec_scan(data),
        spec_hints_of_scan(data.subrange(0, spec_scan_end_from(data, 0))) == spec_hints_of_scan(
            data,
        ),
{
    lemma_scan_end_bounds(data, 0);
    let e = spec_scan_end_from(data, 0);
    lemma_scan_truncate(data, e, 0);
    assert(spec_hints_of_scan(data.subrange(0, e)) =~= spec_hints_of_scan(data));
}

} // verus!
