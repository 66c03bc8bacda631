//! Engine configuration.

use vstd::prelude::*;

verus! {

/// The durability policy: fsync in the background every `n` milliseconds,
/// never, or after every single write.
#[derive(Clone, Copy, PartialEq, Eq, Structural, Debug)]
pub enum SyncOptions {
    Frequency(usize),
    Never,
    Always,
}

/// Everything the engine can be configured with. Fragmentation bounds are
/// expressed in permille (dead records per thousand records ever seen), so
/// a trigger of 600 stands for a ratio of six tenths.
#[derive(Clone, Copy, Debug)]
pub struct StorageOptions {
    pub create: bool,
    pub sync: SyncOptions,
    pub max_file_size: usize,
    /// Capacity of a host program's descriptor cache. The engine itself
    /// holds every file as bytes and opens no descriptors, so it does not
    /// read this knob; it is accepted and carried for the host.
    pub file_chunk_queue_size: usize,
    pub compaction: bool,
    pub compaction_check_frequency: u64,
    pub compaction_window: (usize, usize),
    pub fragmentation_trigger: u64,
    pub dead_bytes_trigger: u64,
    pub fragmentation_threshold: u64,
    pub dead_bytes_threshold: u64,
    pub small_file_threshold: u64,
}

/// The defaults: rotate at 2 GiB, check compaction hourly in a full-day
/// window, trigger at 600 permille fragmentation or 512 MiB dead bytes,
/// include at 400 permille or 128 MiB, and pull in files of 10 MiB or less.
pub open spec fn spec_default_options() -> StorageOptions {
    StorageOptions {
        create: true,
        sync: SyncOptions::Frequency(2000),
        max_file_size: 0x8000_0000,
        file_chunk_queue_size: 2048,
        compaction: true,
        compaction_check_frequency: 3600,
        compaction_window: (0, 23),
        fragmentation_trigger: 600,
        dead_bytes_trigger: 0x2000_0000,
        fragmentation_threshold: 400,
        dead_bytes_threshold: 0x800_0000,
        small_file_threshold: 0xa0_0000,
    }
}

impl Default for StorageOptions {
    /// The default configuration.
    fn default() -> (r: StorageOptions)
        ensures
            r == spec_default_options(),
    {
        StorageOptions {
            create: true,
            sync: SyncOptions::Frequency(2000),
            max_file_size: 0x8000_0000,
            file_chunk_queue_size: 2048,
            compaction: true,
            compaction_check_frequency: 3600,
            compaction_window: (0, 23),
            fragmentation_trigger: 600,
            dead_bytes_trigger: 0x2000_0000,
            fragmentation_threshold: 400,
            dead_bytes_threshold: 0x800_0000,
            small_file_threshold: 0xa0_0000,
        }
    }
}

impl StorageOptions {
    /// The default configuration.
    pub fn new() -> (r: StorageOptions)
        ensures
            r == spec_default_options(),
    {
        StorageOptions::default()
    }

    /// Set the durability policy.
    pub fn sync(&mut self, sync: SyncOptions) -> (r: &mut StorageOptions)
        ensures
            *final(self) == *final(r),
            *r == (StorageOptions { sync, ..*old(self) }),
    {
        self.sync = sync;
        self
    }

    /// Set the rotation threshold in bytes.
    pub fn max_file_size(&mut self, max_file_size: usize) -> (r: &mut StorageOptions)
        ensures
            *final(self) == *final(r),
            *r == (StorageOptions { max_file_size, ..*old(self) }),
    {
        self.max_file_size = max_file_size;
        self
    }

    /// Set the descriptor-cache capacity.
    pub fn file_chunk_queue_size(&mut self, file_chunk_queue_size: usize) -> (r:
        &mut StorageOptions)
        ensures
            *final(self) == *final(r),
            *r == (StorageOptions { file_chunk_queue_size, ..*old(self) }),
    {
        self.file_chunk_queue_size = file_chunk_queue_size;
        self
    }

    /// Enable or disable the background compactor.
    pub fn compaction(&mut self, compaction: bool) -> (r: &mut StorageOptions)
        ensures
            *final(self) == *final(r),
            *r == (StorageOptions { compaction, ..*old(self) }),
    {
        self.compaction = compaction;
        self
    }

    /// Create the directory when missing.
    pub fn create(&mut self, create: bool) -> (r: &mut StorageOptions)
        ensures
            *final(self) == *final(r),
            *r == (StorageOptions { create, ..*old(self) }),
    {
        self.create = create;
        self
    }

    /// Set the seconds between background compaction checks.
    pub fn compaction_check_frequency(&mut self, compaction_check_frequency: u64) -> (r:
        &mut StorageOptions)
        ensures
            *final(self) == *final(r),
            *r == (StorageOptions { compaction_check_frequency, ..*old(self) }),
    {
        self.compaction_check_frequency = compaction_check_frequency;
        self
    }

    /// Set the hour window in which background compaction may run.
    pub fn compaction_window(&mut self, start: usize, end: usize) -> (r: &mut StorageOptions)
        ensures
            *final(self) == *final(r),
            *r == (StorageOptions { compaction_window: (start, end), ..*old(self) }),
    {
        self.compaction_window = (start, end);
        self
    }

    /// Set the fragmentation, in permille, that triggers a pass.
    pub fn fragmentation_trigger(&mut self, fragmentation_trigger: u64) -> (r:
        &mut StorageOptions)
        ensures
            *final(self) == *final(r),
            *r == (StorageOptions { fragmentation_trigger, ..*old(self) }),
    {
        self.fragmentation_trigger = fragmentation_trigger;
        self
    }

    /// Set the dead bytes that trigger a pass.
    pub fn dead_bytes_trigger(&mut self, dead_bytes_trigger: u64) -> (r: &mut StorageOptions)
        ensures
            *final(self) == *final(r),
            *r == (StorageOptions { dead_bytes_trigger, ..*old(self) }),
    {
        self.dead_bytes_trigger = dead_bytes_trigger;
        self
    }

    /// Set the fragmentation, in permille, that includes a file in a pass.
    pub fn fragmentation_threshold(&mut self, fragmentation_threshold: u64) -> (r:
        &mut StorageOptions)
        ensures
            *final(self) == *final(r),
            *r == (StorageOptions { fragmentation_threshold, ..*old(self) }),
    {
        self.fragmentation_threshold = fragmentation_threshold;
        self
    }

    /// Set the dead bytes that include a file in a pass.
    pub fn dead_bytes_threshold(&mut self, dead_bytes_threshold: u64) -> (r: &mut StorageOptions)
        ensures
            *final(self) == *final(r),
            *r == (StorageOptions { dead_bytes_threshold, ..*old(self) }),
    {
        self.dead_bytes_threshold = dead_bytes_threshold;
        self
    }

    /// Set the size at or under which a file joins an already-triggered
    /// pass.
    pub fn small_file_threshold(&mut self, small_file_threshold: u64) -> (r: &mut StorageOptions)
        ensures
            *final(self) == *final(r),
            *r == (StorageOptions { small_file_threshold, ..*old(self) }),
    {
        self.small_file_threshold = small_file_threshold;
        self
    }
}

/// Whether `hour` lies in the inclusive window `[start, end]`; a window with
/// `start > end` wraps around midnight.
pub open spec fn spec_hour_in_window(hour: int, start: int, end: int) -> bool {
    if start <= end {
        start <= hour <= end
    } else {
        hour >= start || hour <= end
    }
}

/// The window check the background compactor applies before a pass.
pub fn hour_in_window(hour: usize, start: usize, end: usize) -> (r: bool)
    ensures
        r == spec_hour_in_window(hour as int, start as int, end as int),
{
    if start <= end {
        start <= hour && hour <= end
    } else {
        hour >= start || hour <= end
    }
}

} // verus!
