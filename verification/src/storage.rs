use vstd::prelude::*;

use crate::cache::Storage;
use crate::error::SimError;

verus! {

/// Counters a storage level keeps about the requests it served.
#[derive(Debug, Clone, Copy)]
pub struct StorageStats {
    pub access_counter: usize,
    pub miss_num: usize,
    /// Sum of the times of the requests served, in latency units.
    pub access_time: usize,
    /// Lines evicted to make room for a new block.
    pub replace_num: usize,
    /// Blocks fetched from the lower level.
    pub fetch_num: usize,
    /// Blocks fetched into prefetch streams.
    pub prefetch_num: usize,
    /// Misses served from a prefetch stream.
    pub prefetch_hit: usize,
}

impl StorageStats {
    /// Every counter is zero.
    pub open spec fn is_zero(self) -> bool {
        &&& self.access_counter == 0
        &&& self.miss_num == 0
        &&& self.access_time == 0
        &&& self.replace_num == 0
        &&& self.fetch_num == 0
        &&& self.prefetch_num == 0
        &&& self.prefetch_hit == 0
    }
}

impl Default for StorageStats {
    fn default() -> (r: Self)
        ensures
            r.is_zero(),
    {
        StorageStats {
            access_counter: 0,
            miss_num: 0,
            access_time: 0,
            replace_num: 0,
            fetch_num: 0,
            prefetch_num: 0,
            prefetch_hit: 0,
        }
    }
}

/// The fixed costs of a storage level.
#[derive(Debug, Clone, Copy)]
pub struct StorageLatency {
    /// Paid by every request that reaches the level.
    pub hit_latency: usize,
    /// Added to each request for the transfer to the level.
    pub bus_latency: usize,
}

impl Default for StorageLatency {
    fn default() -> (r: Self)
        ensures
            r.hit_latency == 0,
            r.bus_latency == 0,
    {
        StorageLatency { hit_latency: 0, bus_latency: 0 }
    }
}

impl StorageLatency {
    /// Rejects a level whose hit or bus latency is zero.
    pub fn validate(&self) -> (r: Result<(), SimError>)
        ensures
            r is Err <==> (self.hit_latency == 0 || self.bus_latency == 0),
            r matches Err(e) ==> e == SimError::IdealStorage,
    {
        if self.hit_latency == 0 || self.bus_latency == 0 {
            return Err(SimError::IdealStorage);
        }
        Ok(())
    }
}

/// A placeholder level that stands for no storage at all; nothing lies below it.
#[derive(Debug)]
pub struct EmptyStorage {}

impl EmptyStorage {
    /// Nothing lies below.
    pub fn get_lower(&self) -> (r: Option<&Storage>)
        ensures
            r is None,
    {
        None
    }
}

} // verus!
