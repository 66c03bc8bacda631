//! The in-memory primary index and the per-file compaction statistics.
//!
//! Both are association lists with unique keys, viewed as maps. The index
//! maps a key to the locator of its most recent log record; the statistics
//! map a file id to the counters that drive compaction eligibility.

use vstd::prelude::*;

use crate::codec::{CompactionHint, HintView, LOG_STATIC_SIZE};

verus! {

/// Where the authoritative record of a key lies: byte offset, sequence
/// number, encoded size, and the id of the data file that holds it.
#[derive(Clone, Copy, Debug, PartialEq, Eq, Structural)]
pub struct MemIdxEntry {
    pub pos: u64,
    pub seq: u64,
    pub size: u64,
    pub file_id: u32,
}

/// The counters kept per data file: records ever seen live in the file,
/// records of it that have died, and the bytes those dead records occupy.
#[derive(Clone, Copy, Debug, PartialEq, Eq, Structural)]
pub struct AnalysisCounters {
    pub entries: u64,
    pub dead_entries: u64,
    pub dead_bytes: u64,
}

/// Pairwise-distinct keys, the representation invariant of both maps.
pub open spec fn idx_keys_unique(s: Seq<(Vec<u8>, MemIdxEntry)>) -> bool {
    forall|i: int, j: int| 0 <= i < j < s.len() ==> s[i].0@ != s[j].0@
}

/// The map an association list denotes.
pub open spec fn idx_as_map(s: Seq<(Vec<u8>, MemIdxEntry)>) -> Map<Seq<u8>, MemIdxEntry>
    decreases s.len(),
{
    if s.len() == 0 {
        Map::empty()
    } else {
        idx_as_map(s.drop_last()).insert(s.last().0@, s.last().1)
    }
}

/// Membership in the denoted map is existence in the list, and with unique
/// keys each list slot gives the map's value at its key.
pub proof fn lemma_idx_as_map(s: Seq<(Vec<u8>, MemIdxEntry)>)
    ensures
        forall|k: Seq<u8>|
            #[trigger] idx_as_map(s).contains_key(k) <==> (exists|i: int|
                0 <= i < s.len() && s[i].0@ == k),
        idx_keys_unique(s) ==> forall|i: int|
            0 <= i < s.len() ==> idx_as_map(s)[#[trigger] s[i].0@] == s[i].1,
    decreases s.len(),
{
    if s.len() > 0 {
        lemma_idx_as_map(s.drop_last());
        assert forall|k: Seq<u8>| #[trigger]
            idx_as_map(s).contains_key(k) implies (exists|i: int|
            0 <= i < s.len() && s[i].0@ == k) by {
            if k == s.last().0@ {
                assert(s[s.len() - 1].0@ == k);
            } else {
                assert(idx_as_map(s.drop_last()).contains_key(k));
                let i = choose|i: int|
                    0 <= i < s.drop_last().len() && s.drop_last()[i].0@ == k;
                assert(s.drop_last()[i].0@ == k);
                assert(s[i].0@ == k);
            }
        }
        assert forall|i: int| 0 <= i < s.len() implies #[trigger] idx_as_map(s).contains_key(
            s[i].0@,
        ) by {
            if i < s.len() - 1 {
                assert(s.drop_last()[i].0@ == s[i].0@);
                assert(idx_as_map(s.drop_last()).contains_key(s.drop_last()[i].0@));
            }
        }
        if idx_keys_unique(s) {
            assert(idx_keys_unique(s.drop_last()));
            assert forall|i: int| 0 <= i < s.len() implies idx_as_map(s)[#[trigger] s[i].0@]
                == s[i].1 by {
                if i < s.len() - 1 {
                    assert(s[i].0@ != s.last().0@);
                    assert(s.drop_last()[i].0@ == s[i].0@);
                }
            }
        }
    }
}

/// Replacing the pair at `i` by one with the same key updates the denoted
/// map at that key.
pub proof fn lemma_idx_as_map_update(s: Seq<(Vec<u8>, MemIdxEntry)>, i: int, p: (Vec<u8>, MemIdxEntry))
    requires
        idx_keys_unique(s),
        0 <= i < s.len(),
        p.0@ == s[i].0@,
    ensures
        idx_as_map(s.update(i, p)) == idx_as_map(s).insert(p.0@, p.1),
        idx_keys_unique(s.update(i, p)),
    decreases s.len(),
{
    let s2 = s.update(i, p);
    assert(idx_keys_unique(s2));
    if i == s.len() - 1 {
        assert(s2.drop_last() =~= s.drop_last());
        assert(idx_as_map(s2) =~= idx_as_map(s).insert(p.0@, p.1));
    } else {
        assert(s2.drop_last() =~= s.drop_last().update(i, p));
        lemma_idx_as_map_update(s.drop_last(), i, p);
        lemma_idx_as_map(s.drop_last());
        assert(s[i].0@ != s.last().0@);
        assert(idx_as_map(s2) =~= idx_as_map(s).insert(p.0@, p.1));
    }
}

/// Removing the pair at `i` removes its key from the denoted map.
pub proof fn lemma_idx_as_map_remove(s: Seq<(Vec<u8>, MemIdxEntry)>, i: int)
    requires
        idx_keys_unique(s),
        0 <= i < s.len(),
    ensures
        idx_as_map(s.remove(i)) == idx_as_map(s).remove(s[i].0@),
        idx_keys_unique(s.remove(i)),
    decreases s.len(),
{
    let s2 = s.remove(i);
    assert(idx_keys_unique(s2));
    lemma_idx_as_map(s.drop_last());
    if i == s.len() - 1 {
        assert(s2 =~= s.drop_last());
        assert(idx_as_map(s2) =~= idx_as_map(s).remove(s[i].0@));
    } else {
        assert(s2.drop_last() =~= s.drop_last().remove(i));
        lemma_idx_as_map_remove(s.drop_last(), i);
        assert(s[i].0@ != s.last().0@);
        assert(s2.last() == s.last());
        assert(idx_as_map(s2) =~= idx_as_map(s).remove(s[i].0@));
    }
}

/// The association list behind the per-file statistics, with unique file ids.
pub open spec fn ca_keys_unique(s: Seq<(u32, AnalysisCounters)>) -> bool {
    forall|i: int, j: int| 0 <= i < j < s.len() ==> s[i].0 != s[j].0
}

/// The map a statistics list denotes.
pub open spec fn ca_as_map(s: Seq<(u32, AnalysisCounters)>) -> Map<u32, AnalysisCounters>
    decreases s.len(),
{
    if s.len() == 0 {
        Map::empty()
    } else {
        ca_as_map(s.drop_last()).insert(s.last().0, s.last().1)
    }
}

/// The analogue of `lemma_idx_as_map` for the statistics list.
pub proof fn lemma_ca_as_map(s: Seq<(u32, AnalysisCounters)>)
    ensures
        forall|k: u32|
            #[trigger] ca_as_map(s).contains_key(k) <==> (exists|i: int|
                0 <= i < s.len() && s[i].0 == k),
        ca_keys_unique(s) ==> forall|i: int|
            0 <= i < s.len() ==> ca_as_map(s)[#[trigger] s[i].0] == s[i].1,
    decreases s.len(),
{
    if s.len() > 0 {
        lemma_ca_as_map(s.drop_last());
        assert forall|k: u32| #[trigger] ca_as_map(s).contains_key(k) implies (exists|i: int|
            0 <= i < s.len() && s[i].0 == k) by {
            if k == s.last().0 {
                assert(s[s.len() - 1].0 == k);
            } else {
                assert(ca_as_map(s.drop_last()).contains_key(k));
                let i = choose|i: int| 0 <= i < s.drop_last().len() && s.drop_last()[i].0 == k;
                assert(s.drop_last()[i].0 == k);
                assert(s[i].0 == k);
            }
        }
        assert forall|i: int| 0 <= i < s.len() implies #[trigger] ca_as_map(s).contains_key(
            s[i].0,
        ) by {
            if i < s.len() - 1 {
                assert(s.drop_last()[i].0 == s[i].0);
                assert(ca_as_map(s.drop_last()).contains_key(s.drop_last()[i].0));
            }
        }
        if ca_keys_unique(s) {
            assert(ca_keys_unique(s.drop_last()));
            assert forall|i: int| 0 <= i < s.len() implies ca_as_map(s)[#[trigger] s[i].0]
                == s[i].1 by {
                if i < s.len() - 1 {
                    assert(s[i].0 != s.last().0);
                    assert(s.drop_last()[i].0 == s[i].0);
                }
            }
        }
    }
}

/// The analogue of `lemma_idx_as_map_update` for the statistics list.
pub proof fn lemma_ca_as_map_update(s: Seq<(u32, AnalysisCounters)>, i: int, p: (u32, AnalysisCounters))
    requires
        ca_keys_unique(s),
        0 <= i < s.len(),
        p.0 == s[i].0,
    ensures
        ca_as_map(s.update(i, p)) == ca_as_map(s).insert(p.0, p.1),
        ca_keys_unique(s.update(i, p)),
    decreases s.len(),
{
    let s2 = s.update(i, p);
    assert(ca_keys_unique(s2));
    if i == s.len() - 1 {
        assert(s2.drop_last() =~= s.drop_last());
        assert(ca_as_map(s2) =~= ca_as_map(s).insert(p.0, p.1));
    } else {
        assert(s2.drop_last() =~= s.drop_last().update(i, p));
        lemma_ca_as_map_update(s.drop_last(), i, p);
        lemma_ca_as_map(s.drop_last());
        assert(s[i].0 != s.last().0);
        assert(ca_as_map(s2) =~= ca_as_map(s).insert(p.0, p.1));
    }
}

/// The analogue of `lemma_idx_as_map_remove` for the statistics list.
pub proof fn lemma_ca_as_map_remove(s: Seq<(u32, AnalysisCounters)>, i: int)
    requires
        ca_keys_unique(s),
        0 <= i < s.len(),
    ensures
        ca_as_map(s.remove(i)) == ca_as_map(s).remove(s[i].0),
        ca_keys_unique(s.remove(i)),
    decreases s.len(),
{
    let s2 = s.remove(i);
    assert(ca_keys_unique(s2));
    lemma_ca_as_map(s.drop_last());
    if i == s.len() - 1 {
        assert(s2 =~= s.drop_last());
        assert(ca_as_map(s2) =~= ca_as_map(s).remove(s[i].0));
    } else {
        assert(s2.drop_last() =~= s.drop_last().remove(i));
        lemma_ca_as_map_remove(s.drop_last(), i);
        assert(s[i].0 != s.last().0);
        assert(s2.last() == s.last());
        assert(ca_as_map(s2) =~= ca_as_map(s).remove(s[i].0));
    }
}

/// `a + b`, stuck at the largest representable value.
pub open spec fn sat_add(a: u64, b: u64) -> u64 {
    if a + b > u64::MAX {
        u64::MAX
    } else {
        (a + b) as u64
    }
}

/// What `add` does to the statistics map: a first sighting of a file starts
/// its counters at one live record; a later one bumps the live counter.
pub open spec fn spec_ca_add(m: Map<u32, AnalysisCounters>, file_id: u32) -> Map<
    u32,
    AnalysisCounters,
> {
    if m.contains_key(file_id) {
        m.insert(
            file_id,
            AnalysisCounters {
                entries: sat_add(m[file_id].entries, 1),
                dead_entries: m[file_id].dead_entries,
                dead_bytes: m[file_id].dead_bytes,
            },
        )
    } else {
        m.insert(file_id, AnalysisCounters { entries: 1, dead_entries: 0, dead_bytes: 0 })
    }
}

/// What `remove` does to the statistics map: the displaced entry is charged
/// as one more dead record and its bytes as dead bytes on its own file; a
/// file never seen is left alone.
pub open spec fn spec_ca_remove(m: Map<u32, AnalysisCounters>, entry: MemIdxEntry) -> Map<
    u32,
    AnalysisCounters,
> {
    if m.contains_key(entry.file_id) {
        m.insert(
            entry.file_id,
            AnalysisCounters {
                entries: m[entry.file_id].entries,
                dead_entries: sat_add(m[entry.file_id].dead_entries, 1),
                dead_bytes: sat_add(m[entry.file_id].dead_bytes, entry.size),
            },
        )
    } else {
        m
    }
}

/// Dead records per thousand records ever seen in the file.
pub open spec fn spec_frag_permille(c: AnalysisCounters) -> u64 {
    if c.entries == 0 {
        0
    } else if c.dead_entries * 1000 / (c.entries as int) > u64::MAX {
        u64::MAX
    } else {
        (c.dead_entries * 1000 / (c.entries as int)) as u64
    }
}

/// Per-file statistics that drive compaction eligibility.
pub struct CompactionAnalysis {
    map: Vec<(u32, AnalysisCounters)>,
}

impl View for CompactionAnalysis {
    type V = Map<u32, AnalysisCounters>;

    closed spec fn view(&self) -> Map<u32, AnalysisCounters> {
        ca_as_map(self.map@)
    }
}

impl CompactionAnalysis {
    /// The representation invariant: one slot per file id.
    pub closed spec fn wf(&self) -> bool {
        ca_keys_unique(self.map@)
    }

    /// Empty statistics.
    pub fn new() -> (r: CompactionAnalysis)
        ensures
            r.wf(),
            r@ == Map::<u32, AnalysisCounters>::empty(),
    {
        CompactionAnalysis { map: Vec::new() }
    }

    /// The slot of `file_id`, if the file has been seen.
    fn find(&self, file_id: u32) -> (r: Option<usize>)
        requires
            self.wf(),
        ensures
            match r {
                Some(i) => i < self.map@.len() && self.map@[i as int].0 == file_id
                    && self@.contains_key(file_id) && self@[file_id] == self.map@[i as int].1,
                None => !self@.contains_key(file_id),
            },
    {
        proof {
            lemma_ca_as_map(self.map@);
        }
        let n = self.map.len();
        let mut i: usize = 0;
        while i < n
            invariant
                self.wf(),
                n == self.map@.len(),
                i <= n,
                forall|j: int| 0 <= j < i ==> self.map@[j].0 != file_id,
            decreases n - i,
        {
            if self.map[i].0 == file_id {
                proof {
                    lemma_ca_as_map(self.map@);
                }
                return Some(i);
            }
            i = i + 1;
        }
        proof {
            lemma_ca_as_map(self.map@);
        }
        None
    }

    /// Credit one live record to `entry`'s file.
    pub fn add(&mut self, entry: &MemIdxEntry)
        requires
            old(self).wf(),
        ensures
            final(self).wf(),
            final(self)@ == spec_ca_add(old(self)@, entry.file_id),
    {
        match self.find(entry.file_id) {
            Some(i) => {
                let ghost s = self.map@;
                let c = self.map[i].1;
                let bumped = AnalysisCounters {
                    entries: if c.entries == u64::MAX {
                        u64::MAX
                    } else {
                        c.entries + 1
                    },
                    dead_entries: c.dead_entries,
                    dead_bytes: c.dead_bytes,
                };
                self.map[i] = (entry.file_id, bumped);
                proof {
                    lemma_ca_as_map_update(s, i as int, (entry.file_id, bumped));
                }
            },
            None => {
                let ghost s = self.map@;
                self.map.push(
                    (entry.file_id, AnalysisCounters { entries: 1, dead_entries: 0, dead_bytes: 0 }),
                );
                proof {
                    assert(self.map@.drop_last() =~= s);
                    assert(ca_keys_unique(self.map@)) by {
                        lemma_ca_as_map(s);
                    }
                }
            },
        }
    }

    /// Charge `entry` as dead on its file.
    pub fn remove(&mut self, entry: &MemIdxEntry)
        requires
            old(self).wf(),
        ensures
            final(self).wf(),
            final(self)@ == spec_ca_remove(old(self)@, *entry),
    {
        match self.find(entry.file_id) {
            Some(i) => {
                let ghost s = self.map@;
                let c = self.map[i].1;
                let bumped = AnalysisCounters {
                    entries: c.entries,
                    dead_entries: if c.dead_entries == u64::MAX {
                        u64::MAX
                    } else {
                        c.dead_entries + 1
                    },
                    dead_bytes: if c.dead_bytes > u64::MAX - entry.size {
                        u64::MAX
                    } else {
                        c.dead_bytes + entry.size
                    },
                };
                self.map[i] = (entry.file_id, bumped);
                proof {
                    lemma_ca_as_map_update(s, i as int, (entry.file_id, bumped));
                }
            },
            None => {
                // Nothing is known of this file; there is nothing to reclaim.
            },
        }
    }

    /// Drop the counters of files that no longer exist.
    pub fn remove_files(&mut self, files: &[u32])
        requires
            old(self).wf(),
        ensures
            final(self).wf(),
            forall|k: u32|
                #[trigger] final(self)@.contains_key(k) <==> (old(self)@.contains_key(k)
                    && !files@.contains(k)),
            forall|k: u32|
                #[trigger] final(self)@.contains_key(k) ==> final(self)@[k] == old(self)@[k],
    {
        let n = files.len();
        let mut i: usize = 0;
        while i < n
            invariant
                self.wf(),
                n == files@.len(),
                i <= n,
                forall|k: u32|
                    #[trigger] self@.contains_key(k) <==> (old(self)@.contains_key(k) && !files@
                        .subrange(0, i as int).contains(k)),
                forall|k: u32| #[trigger] self@.contains_key(k) ==> self@[k] == old(self)@[k],
            decreases n - i,
        {
            let ghost before = self@;
            let ghost fsub = files@.subrange(0, i as int);
            let ghost fsub1 = files@.subrange(0, i + 1);
            let fid = files[i];
            match self.find(fid) {
                Some(j) => {
                    let ghost s = self.map@;
                    self.map.remove(j);
                    proof {
                        lemma_ca_as_map_remove(s, j as int);
                    }
                },
                None => {
                    proof {
                        assert(before.remove(fid) =~= before);
                    }
                },
            }
            proof {
                assert(self@ =~= before.remove(fid));
                assert(fsub1 =~= fsub.push(fid));
                assert forall|k: u32| #![auto] fsub1.contains(k) == (fsub.contains(k) || k
                    == fid) by {
                    if fsub1.contains(k) {
                        let j = choose|j: int| 0 <= j < fsub1.len() && fsub1[j] == k;
                        if j < i {
                            assert(fsub[j] == k);
                        }
                    }
                    if fsub.contains(k) {
                        let j = choose|j: int| 0 <= j < fsub.len() && fsub[j] == k;
                        assert(fsub1[j] == k);
                    }
                    assert(fsub1[i as int] == fid);
                }
            }
            i = i + 1;
        }
        proof {
            assert(files@.subrange(0, n as int) =~= files@);
        }
    }

    /// One triple per known file: its id, its fragmentation in permille, and
    /// its dead bytes.
    pub fn file_analysis(&self) -> (r: Vec<(u32, u64, u64)>)
        requires
            self.wf(),
        ensures
            forall|i: int|
                0 <= i < r@.len() ==> {
                    &&& self@.contains_key(#[trigger] r@[i].0)
                    &&& r@[i].1 == spec_frag_permille(self@[r@[i].0])
                    &&& r@[i].2 == self@[r@[i].0].dead_bytes
                },
            forall|i: int, j: int| 0 <= i < j < r@.len() ==> r@[i].0 != r@[j].0,
            forall|k: u32|
                self@.contains_key(k) ==> exists|i: int| 0 <= i < r@.len() && r@[i].0 == k,
    {
        proof {
            lemma_ca_as_map(self.map@);
        }
        let n = self.map.len();
        let mut r: Vec<(u32, u64, u64)> = Vec::new();
        let mut i: usize = 0;
        while i < n
            invariant
                self.wf(),
                n == self.map@.len(),
                i <= n,
                r@.len() == i,
                forall|j: int| 0 <= j < i ==> #[trigger] r@[j].0 == self.map@[j].0,
                forall|j: int|
                    0 <= j < i ==> {
                        &&& self@.contains_key(#[trigger] r@[j].0)
                        &&& r@[j].1 == spec_frag_permille(self@[r@[j].0])
                        &&& r@[j].2 == self@[r@[j].0].dead_bytes
                    },
            decreases n - i,
        {
            proof {
                lemma_ca_as_map(self.map@);
            }
            let (file_id, c) = self.map[i];
            let frag: u64 = if c.entries == 0 {
                0
            } else {
                let q = (c.dead_entries as u128) * 1000 / (c.entries as u128);
                if q > u64::MAX as u128 {
                    u64::MAX
                } else {
                    q as u64
                }
            };
            r.push((file_id, frag, c.dead_bytes));
            i = i + 1;
        }
        proof {
            lemma_ca_as_map(self.map@);
            assert forall|k: u32| self@.contains_key(k) implies exists|i: int|
                0 <= i < r@.len() && r@[i].0 == k by {
                let i = choose|i: int| 0 <= i < self.map@.len() && self.map@[i].0 == k;
                assert(r@[i].0 == k);
            }
        }
        r
    }
}

/// The index entry a hint denotes when its record lies in `file_id`.
pub open spec fn spec_hint_entry(h: HintView, file_id: u32) -> MemIdxEntry {
    MemIdxEntry {
        pos: h.log_pos,
        seq: h.seq,
        size: (LOG_STATIC_SIZE as int + h.key.len() + h.value_size as int) as u64,
        file_id,
    }
}

/// What replaying one hint does to the index map: the hint wins against an
/// older or equal sequence number and then installs its entry (or, for a
/// tombstone, drops the key); it loses against a newer one and changes
/// nothing.
pub open spec fn spec_replay(
    m: Map<Seq<u8>, MemIdxEntry>,
    h: HintView,
    file_id: u32,
) -> Map<Seq<u8>, MemIdxEntry> {
    let e = spec_hint_entry(h, file_id);
    if m.contains_key(h.key) {
        if m[h.key].seq <= h.seq {
            if h.deleted {
                m.remove(h.key)
            } else {
                m.insert(h.key, e)
            }
        } else {
            m
        }
    } else {
        if h.deleted {
            m
        } else {
            m.insert(h.key, e)
        }
    }
}

/// What replaying one hint does to the statistics: a winner charges the
/// displaced entry as dead (and credits itself when live); a loser books
/// itself live and immediately dead, so compaction can reclaim it.
pub open spec fn spec_replay_ca(
    ca: Map<u32, AnalysisCounters>,
    m: Map<Seq<u8>, MemIdxEntry>,
    h: HintView,
    file_id: u32,
) -> Map<u32, AnalysisCounters> {
    let e = spec_hint_entry(h, file_id);
    if m.contains_key(h.key) {
        if m[h.key].seq <= h.seq {
            if h.deleted {
                spec_ca_remove(ca, m[h.key])
            } else {
                spec_ca_add(spec_ca_remove(ca, m[h.key]), file_id)
            }
        } else {
            spec_ca_remove(spec_ca_add(ca, file_id), e)
        }
    } else {
        if h.deleted {
            ca
        } else {
            spec_ca_add(ca, file_id)
        }
    }
}

/// The in-memory primary index: key to locator of the authoritative record,
/// together with the per-file statistics it maintains.
pub struct MemIdx {
    mem: Vec<(Vec<u8>, MemIdxEntry)>,
    pub compaction_analysis: CompactionAnalysis,
}

impl View for MemIdx {
    type V = Map<Seq<u8>, MemIdxEntry>;

    closed spec fn view(&self) -> Map<Seq<u8>, MemIdxEntry> {
        idx_as_map(self.mem@)
    }
}

impl MemIdx {
    /// The representation invariant: one slot per key, statistics well
    /// formed.
    pub closed spec fn wf(&self) -> bool {
        idx_keys_unique(self.mem@) && self.compaction_analysis.wf()
    }

    /// The statistics map, as public contracts speak of it.
    pub closed spec fn analysis(&self) -> Map<u32, AnalysisCounters> {
        self.compaction_analysis@
    }

    /// An empty index.
    pub fn new() -> (r: MemIdx)
        ensures
            r.wf(),
            r@ == Map::<Seq<u8>, MemIdxEntry>::empty(),
            r.analysis() == Map::<u32, AnalysisCounters>::empty(),
    {
        MemIdx { mem: Vec::new(), compaction_analysis: CompactionAnalysis::new() }
    }

    /// The slot of `key`, if the key is present.
    fn find(&self, key: &[u8]) -> (r: Option<usize>)
        requires
            self.wf(),
        ensures
            match r {
                Some(i) => i < self.mem@.len() && self.mem@[i as int].0@ == key@
                    && self@.contains_key(key@) && self@[key@] == self.mem@[i as int].1,
                None => !self@.contains_key(key@),
            },
    {
        proof {
            lemma_idx_as_map(self.mem@);
        }
        let n = self.mem.len();
        let mut i: usize = 0;
        while i < n
            invariant
                self.wf(),
                n == self.mem@.len(),
                i <= n,
                forall|j: int| 0 <= j < i ==> self.mem@[j].0@ != key@,
            decreases n - i,
        {
            if crate::util::bytes_eq(self.mem[i].0.as_slice(), key) {
                proof {
                    lemma_idx_as_map(self.mem@);
                }
                return Some(i);
            }
            i = i + 1;
        }
        proof {
            lemma_idx_as_map(self.mem@);
        }
        None
    }

    /// The locator of `key`'s record, if any.
    pub fn get(&self, key: &[u8]) -> (r: Option<&MemIdxEntry>)
        requires
            self.wf(),
        ensures
            match r {
                Some(e) => self@.contains_key(key@) && *e == self@[key@],
                None => !self@.contains_key(key@),
            },
    {
        match self.find(key) {
            Some(i) => Some(&self.mem[i].1),
            None => None,
        }
    }

    /// Install a fresh mapping, returning the displaced entry. The new entry
    /// is credited live on its file; a displaced one is charged dead on its
    /// own.
    pub fn set(&mut self, key: Vec<u8>, entry: MemIdxEntry) -> (r: Option<MemIdxEntry>)
        requires
            old(self).wf(),
        ensures
            final(self).wf(),
            final(self)@ == old(self)@.insert(key@, entry),
            r == if old(self)@.contains_key(key@) {
                Some(old(self)@[key@])
            } else {
                None
            },
            final(self).analysis() == ({
                let charged = spec_ca_add(old(self).analysis(), entry.file_id);
                if old(self)@.contains_key(key@) {
                    spec_ca_remove(charged, old(self)@[key@])
                } else {
                    charged
                }
            }),
    {
        self.compaction_analysis.add(&entry);
        match self.find(key.as_slice()) {
            Some(i) => {
                let displaced = self.mem[i].1;
                let ghost s = self.mem@;
                let ghost k = key@;
                self.mem[i] = (key, entry);
                proof {
                    lemma_idx_as_map_update(s, i as int, (self.mem@[i as int].0, entry));
                }
                self.compaction_analysis.remove(&displaced);
                Some(displaced)
            },
            None => {
                let ghost s = self.mem@;
                let ghost k = key@;
                self.mem.push((key, entry));
                proof {
                    assert(self.mem@.drop_last() =~= s);
                    lemma_idx_as_map(s);
                    assert(idx_keys_unique(self.mem@));
                }
                None
            },
        }
    }

    /// Drop `key`, returning and charging its displaced entry.
    pub fn remove(&mut self, key: &[u8]) -> (r: Option<MemIdxEntry>)
        requires
            old(self).wf(),
        ensures
            final(self).wf(),
            final(self)@ == old(self)@.remove(key@),
            r == if old(self)@.contains_key(key@) {
                Some(old(self)@[key@])
            } else {
                None
            },
            final(self).analysis() == if old(self)@.contains_key(key@) {
                spec_ca_remove(old(self).analysis(), old(self)@[key@])
            } else {
                old(self).analysis()
            },
    {
        match self.find(key) {
            Some(i) => {
                let displaced = self.mem[i].1;
                let ghost s = self.mem@;
                self.mem.remove(i);
                proof {
                    lemma_idx_as_map_remove(s, i as int);
                }
                self.compaction_analysis.remove(&displaced);
                Some(displaced)
            },
            None => {
                proof {
                    assert(old(self)@.remove(key@) =~= old(self)@);
                }
                None
            },
        }
    }

    /// Replay one hint against the index, during recovery or after a
    /// compaction pass: the higher sequence number wins, ties go to the
    /// hint.
    pub fn update(&mut self, ch: CompactionHint, file_id: u32)
        requires
            old(self).wf(),
            ch@.key.len() <= 0xffff,
        ensures
            final(self).wf(),
            final(self)@ == spec_replay(old(self)@, ch@, file_id),
            final(self).analysis() == spec_replay_ca(
                old(self).analysis(),
                old(self)@,
                ch@,
                file_id,
            ),
    {
        let size = ch.log_size();
        let entry = MemIdxEntry { pos: ch.log_pos, seq: ch.seq, size, file_id };
        proof {
            assert(entry == spec_hint_entry(ch@, file_id));
        }
        match self.find(ch.key.as_slice()) {
            Some(i) => {
                let displaced = self.mem[i].1;
                if displaced.seq <= ch.seq {
                    self.compaction_analysis.remove(&displaced);
                    if ch.deleted {
                        let ghost s = self.mem@;
                        self.mem.remove(i);
                        proof {
                            lemma_idx_as_map_remove(s, i as int);
                        }
                    } else {
                        self.compaction_analysis.add(&entry);
                        let ghost s = self.mem@;
                        self.mem[i] = (ch.key, entry);
                        proof {
                            lemma_idx_as_map_update(s, i as int, (self.mem@[i as int].0, entry));
                        }
                    }
                } else {
                    self.compaction_analysis.add(&entry);
                    self.compaction_analysis.remove(&entry);
                }
            },
            None => {
                if !ch.deleted {
                    self.compaction_analysis.add(&entry);
                    let ghost s = self.mem@;
                    self.mem.push((ch.key, entry));
                    proof {
                        assert(self.mem@.drop_last() =~= s);
                        lemma_idx_as_map(s);
                        assert(idx_keys_unique(self.mem@));
                    }
                }
            },
        }
    }

    /// The per-file statistics triples, as `CompactionAnalysis::file_analysis`
    /// reports them.
    pub fn file_analysis(&self) -> (r: Vec<(u32, u64, u64)>)
        requires
            self.wf(),
        ensures
            forall|i: int|
                0 <= i < r@.len() ==> {
                    &&& self.analysis().contains_key(#[trigger] r@[i].0)
                    &&& r@[i].1 == spec_frag_permille(self.analysis()[r@[i].0])
                    &&& r@[i].2 == self.analysis()[r@[i].0].dead_bytes
                },
            forall|i: int, j: int| 0 <= i < j < r@.len() ==> r@[i].0 != r@[j].0,
            forall|k: u32|
                self.analysis().contains_key(k) ==> exists|i: int|
                    0 <= i < r@.len() && r@[i].0 == k,
    {
        self.compaction_analysis.file_analysis()
    }

    /// Drop the statistics of files that no longer exist; the index itself
    /// is untouched.
    pub fn remove_files(&mut self, files: &[u32])
        requires
            old(self).wf(),
        ensures
            final(self).wf(),
            final(self)@ == old(self)@,
            forall|k: u32|
                #[trigger] final(self).analysis().contains_key(k) <==> (old(
                    self,
                ).analysis().contains_key(k) && !files@.contains(k)),
    {
        self.compaction_analysis.remove_files(files);
    }

    /// A snapshot of every key in the index.
    pub fn keys(&self) -> (r: Vec<Vec<u8>>)
        requires
            self.wf(),
        ensures
            forall|i: int| 0 <= i < r@.len() ==> self@.contains_key(#[trigger] r@[i]@),
            forall|i: int, j: int| 0 <= i < j < r@.len() ==> r@[i]@ != r@[j]@,
            forall|k: Seq<u8>|
                #[trigger] self@.contains_key(k) ==> exists|i: int|
                    0 <= i < r@.len() && r@[i]@ == k,
    {
        proof {
            lemma_idx_as_map(self.mem@);
        }
        let n = self.mem.len();
        let mut r: Vec<Vec<u8>> = Vec::new();
        let mut i: usize = 0;
        while i < n
            invariant
                self.wf(),
                n == self.mem@.len(),
                i <= n,
                r@.len() == i,
                forall|j: int| 0 <= j < i ==> #[trigger] r@[j]@ == self.mem@[j].0@,
            decreases n - i,
        {
            r.push(vstd::slice::slice_to_vec(self.mem[i].0.as_slice()));
            i = i + 1;
        }
        proof {
            lemma_idx_as_map(self.mem@);
            assert forall|k: Seq<u8>| #[trigger] self@.contains_key(k) implies exists|i: int|
                0 <= i < r@.len() && r@[i]@ == k by {
                let i = choose|i: int| 0 <= i < self.mem@.len() && self.mem@[i].0@ == k;
                assert(r@[i]@ == k);
            }
        }
        r
    }
}

/// Replaying a whole hint stream, in order.
pub open spec fn spec_replay_hints(
    m: Map<Seq<u8>, MemIdxEntry>,
    hs: Seq<HintView>,
    file_id: u32,
) -> Map<Seq<u8>, MemIdxEntry>
    decreases hs.len(),
{
    if hs.len() == 0 {
        m
    } else {
        spec_replay(spec_replay_hints(m, hs.drop_last(), file_id), hs.last(), file_id)
    }
}

/// The largest sequence number of a hint stream, folded over `init`.
pub open spec fn spec_max_seq(hs: Seq<HintView>, init: u64) -> u64
    decreases hs.len(),
{
    if hs.len() == 0 {
        init
    } else {
        let rest = spec_max_seq(hs.drop_last(), init);
        if hs.last().seq > rest {
            hs.last().seq
        } else {
            rest
        }
    }
}

} // verus!
