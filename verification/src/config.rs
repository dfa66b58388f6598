//! Engine configuration.
use vstd::prelude::*;

verus! {

/// Default write-buffer capacity in bytes (4 MiB).
pub const DEFAULT_MEMTABLE_CAPACITY: usize = 4 * 1024 * 1024;

/// Default number of on-disk runs that triggers a compaction.
pub const DEFAULT_COMPACTION_TRIGGER: usize = 4;

/// Default capacity of the block cache in bytes (8 MiB).
pub const DEFAULT_BLOCK_CACHE_CAPACITY: usize = 8 * 1024 * 1024;

/// Tuning options for an engine.
#[derive(Debug, PartialEq, Eq)]
pub struct LsmConfig {
    memtable_capacity: usize,
    compaction_trigger: usize,
    block_cache_capacity: usize,
}

/// The value of an [`LsmConfig`].
pub struct Settings {
    /// The write-buffer size, in bytes, at which the buffer is flushed.
    pub memtable_capacity: usize,
    /// The number of runs at which a compaction is asked for.
    pub compaction_trigger: usize,
    /// The size of the block cache, in bytes.
    pub block_cache_capacity: usize,
}

impl View for LsmConfig {
    type V = Settings;

    closed spec fn view(&self) -> Settings {
        Settings {
            memtable_capacity: self.memtable_capacity,
            compaction_trigger: self.compaction_trigger,
            block_cache_capacity: self.block_cache_capacity,
        }
    }
}

/// The settings an engine has unless told otherwise.
pub open spec fn default_settings() -> Settings {
    Settings {
        memtable_capacity: DEFAULT_MEMTABLE_CAPACITY,
        compaction_trigger: DEFAULT_COMPACTION_TRIGGER,
        block_cache_capacity: DEFAULT_BLOCK_CACHE_CAPACITY,
    }
}

impl LsmConfig {
    /// Merging takes at least two runs.
    #[verifier::type_invariant]
    closed spec fn valid(self) -> bool {
        self.compaction_trigger >= 2
    }

    /// The default configuration.
    pub fn new() -> (config: LsmConfig)
        ensures
            config@ == default_settings(),
    {
        LsmConfig {
            memtable_capacity: DEFAULT_MEMTABLE_CAPACITY,
            compaction_trigger: DEFAULT_COMPACTION_TRIGGER,
            block_cache_capacity: DEFAULT_BLOCK_CACHE_CAPACITY,
        }
    }

    /// Sets the write-buffer capacity in bytes.
    pub fn memtable_capacity(self, bytes: usize) -> (config: LsmConfig)
        ensures
            config@ == (Settings { memtable_capacity: bytes, ..self@ }),
    {
        proof {
            use_type_invariant(&self);
        }
        LsmConfig {
            memtable_capacity: bytes,
            compaction_trigger: self.compaction_trigger,
            block_cache_capacity: self.block_cache_capacity,
        }
    }

    /// The write-buffer capacity in bytes.
    pub fn memtable_capacity_bytes(&self) -> (bytes: usize)
        ensures
            bytes == self@.memtable_capacity,
    {
        self.memtable_capacity
    }

    /// Sets the number of runs that triggers a compaction; anything below two counts as
    /// two.
    pub fn compaction_trigger(self, runs: usize) -> (config: LsmConfig)
        ensures
            config@ == (Settings {
                compaction_trigger: if runs < 2 {
                    2
                } else {
                    runs
                },
                ..self@
            }),
    {
        LsmConfig {
            memtable_capacity: self.memtable_capacity,
            compaction_trigger: if runs < 2 {
                2
            } else {
                runs
            },
            block_cache_capacity: self.block_cache_capacity,
        }
    }

    /// The number of runs that triggers a compaction; it is never below two.
    pub fn compaction_trigger_runs(&self) -> (runs: usize)
        ensures
            runs == self@.compaction_trigger,
            runs >= 2,
    {
        proof {
            use_type_invariant(self);
        }
        self.compaction_trigger
    }

    /// Sets the capacity of the block cache in bytes; zero disables the cache.
    pub fn block_cache_capacity(self, bytes: usize) -> (config: LsmConfig)
        ensures
            config@ == (Settings { block_cache_capacity: bytes, ..self@ }),
    {
        proof {
            use_type_invariant(&self);
        }
        LsmConfig {
            memtable_capacity: self.memtable_capacity,
            compaction_trigger: self.compaction_trigger,
            block_cache_capacity: bytes,
        }
    }

    /// The capacity of the block cache in bytes.
    pub fn block_cache_capacity_bytes(&self) -> (bytes: usize)
        ensures
            bytes == self@.block_cache_capacity,
    {
        self.block_cache_capacity
    }
}

impl Clone for LsmConfig {
    fn clone(&self) -> (copy: LsmConfig)
        ensures
            copy@ == self@,
    {
        proof {
            use_type_invariant(self);
        }
        LsmConfig {
            memtable_capacity: self.memtable_capacity,
            compaction_trigger: self.compaction_trigger,
            block_cache_capacity: self.block_cache_capacity,
        }
    }
}

impl Default for LsmConfig {
    fn default() -> (config: LsmConfig)
        ensures
            config@ == default_settings(),
    {
        LsmConfig::new()
    }
}

} // verus!
