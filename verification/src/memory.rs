use vstd::prelude::*;

use std::collections::HashMap;

use crate::cache::Storage;
use crate::error::SimError;
use crate::storage::{StorageLatency, StorageStats};

verus! {

broadcast use vstd::std_specs::hash::group_hash_axioms;

/// Size in bytes of a page of simulated main memory.
pub const PAGE_SIZE: u64 = 0x1000;

/// Mask that keeps the page number bits of an address.
pub const PAGE_NUM_MASK: u64 = 0xFFFF_FFFF_FFFF_F000;

/// One page of simulated main memory.
pub struct Page(pub [u8; 4096]);

impl Page {
    /// Every byte of the page is zero.
    pub open spec fn is_blank(self) -> bool {
        forall|i: int| 0 <= i < 4096 ==> #[trigger] self.0@[i] == 0u8
    }

    /// A page whose bytes are all zero.
    pub fn empty() -> (p: Self)
        ensures
            p.is_blank(),
    {
        Page([0u8; 4096])
    }
}


/// Whether `p` is the first address of a page.
pub open spec fn is_page_start(p: u64) -> bool {
    p % PAGE_SIZE == 0
}

/// The page numbers a request of `bytes` bytes at `addr` touches: every page-aligned
/// address from the page of `addr` up to, not including, the end of the request
/// (addresses are computed modulo 2^64).
pub open spec fn request_pages(addr: u64, bytes: usize) -> Set<u64> {
    Set::new(
        |p: u64|
            is_page_start(p) && (addr & PAGE_NUM_MASK) <= p && p < addr.wrapping_add(
                bytes as u64,
            ),
    )
}

/// The pages of simulated main memory, keyed by page number.
pub struct MemoryInner(pub HashMap<u64, Page>);

/// The last level of the hierarchy: every request hits.
pub struct Memory {
    pub(crate) latency: StorageLatency,
    pub(crate) stats: StorageStats,
    pub(crate) inner: MemoryInner,
}

impl Memory {
    /// The memory's latencies.
    pub closed spec fn latency_spec(&self) -> StorageLatency {
        self.latency
    }

    /// The memory's counters.
    pub closed spec fn stats_spec(&self) -> StorageStats {
        self.stats
    }

    /// The pages allocated so far, by page number.
    pub closed spec fn pages(&self) -> Map<u64, Page> {
        self.inner.0@
    }

    /// The time every request to this memory takes.
    pub open spec fn request_time(&self) -> int {
        self.latency_spec().hit_latency + self.latency_spec().bus_latency
    }

    /// `after` is this memory once it served a request of `bytes` bytes at `addr`: same
    /// latencies, one more access and one more request time counted, a blank page added
    /// for each touched page that was missing, and the other pages unchanged.
    pub open spec fn serves(&self, after: Memory, addr: u64, bytes: usize) -> bool {
        &&& after.latency_spec() == self.latency_spec()
        &&& after.stats_spec() == (StorageStats {
            access_counter: (self.stats_spec().access_counter + 1) as usize,
            access_time: (self.stats_spec().access_time + self.request_time()) as usize,
            ..self.stats_spec()
        })
        &&& after.pages().dom() == self.pages().dom().union(request_pages(addr, bytes))
        &&& forall|p: u64| #[trigger]
            self.pages().contains_key(p) ==> after.pages()[p] == self.pages()[p]
        &&& forall|p: u64| #[trigger]
            after.pages().contains_key(p) && !self.pages().contains_key(p)
                ==> after.pages()[p].is_blank()
    }

    /// The latencies of this level.
    pub fn get_latency(&self) -> (r: StorageLatency)
        ensures
            r == self.latency_spec(),
    {
        self.latency
    }

    /// The counters of this level.
    pub fn get_stats(&self) -> (r: StorageStats)
        ensures
            r == self.stats_spec(),
    {
        self.stats
    }

    /// Nothing lies below main memory.
    pub fn get_lower(&self) -> (r: Option<&Storage>)
        ensures
            r is None,
    {
        None
    }

    /// Serves a request of `bytes` bytes at `addr`: allocates a blank page for each
    /// page the request touches that is not yet present, counts the access and its
    /// time, and reports a hit.  Returns `(hit, time)`.
    pub fn handle_request(&mut self, addr: u64, bytes: usize, read: bool) -> (r: (bool, usize))
        requires
            old(self).stats_spec().access_counter < usize::MAX,
            old(self).stats_spec().access_time + old(self).request_time() <= usize::MAX,
        ensures
            r.0,
            r.1 == old(self).request_time(),
            r.1 == old(self).latency_spec().hit_latency + old(self).latency_spec().bus_latency,
            old(self).serves(*final(self), addr, bytes),
            final(self).stats_spec().access_counter == old(self).stats_spec().access_counter + 1,
            final(self).stats_spec().access_time == old(self).stats_spec().access_time + r.1,
    {
        self.stats.access_counter = self.stats.access_counter + 1;
        let time = self.latency.hit_latency + self.latency.bus_latency;

        let start_page_num = addr & PAGE_NUM_MASK;
        let end_addr = addr.wrapping_add(bytes as u64);
        assert(start_page_num % PAGE_SIZE == 0) by (bit_vector)
            requires
                start_page_num == addr & 0xFFFF_FFFF_FFFF_F000u64,
        ;
        let ghost pages0 = self.inner.0@;
        let mut page_num = start_page_num;
        let mut more = true;
        while more && page_num < end_addr
            invariant
                self.latency == old(self).latency,
                self.stats == (StorageStats {
                    access_counter: (old(self).stats.access_counter + 1) as usize,
                    ..old(self).stats
                }),
                time == old(self).request_time(),
                start_page_num == addr & PAGE_NUM_MASK,
                end_addr == addr.wrapping_add(bytes as u64),
                page_num % PAGE_SIZE == 0,
                start_page_num <= page_num,
                !more ==> page_num > u64::MAX - PAGE_SIZE && page_num < end_addr,
                self.inner.0@.dom() == pages0.dom().union(
                    Set::new(
                        |p: u64|
                            is_page_start(p) && start_page_num <= p && p < end_addr && (p
                                < page_num || !more),
                    ),
                ),
                forall|p: u64| #[trigger] pages0.contains_key(p) ==> self.inner.0@[p] == pages0[p],
                forall|p: u64| #[trigger]
                    self.inner.0@.contains_key(p) && !pages0.contains_key(p)
                        ==> self.inner.0@[p].is_blank(),
            decreases if page_num < end_addr { end_addr - page_num } else { 0 }, if more { 1int } else { 0int },
        {
            if !self.inner.0.contains_key(&page_num) {
                self.inner.0.insert(page_num, Page::empty());
            }
            if page_num > u64::MAX - PAGE_SIZE {
                more = false;
                assert forall|p: u64|
                    #[trigger] is_page_start(p) && start_page_num <= p && p < end_addr
                        implies p <= page_num by {
                    if p > page_num {
                        assert(p - page_num >= PAGE_SIZE);
                    }
                }
            } else {
                page_num = page_num + PAGE_SIZE;
            }
            assert(self.inner.0@.dom() =~= pages0.dom().union(
                Set::new(
                    |p: u64|
                        is_page_start(p) && start_page_num <= p && p < end_addr && (p
                            < page_num || !more),
                ),
            ));
        }
        assert(self.inner.0@.dom() =~= pages0.dom().union(request_pages(addr, bytes)));
        self.stats.access_time = self.stats.access_time + time;
        (true, time)
    }
}


/// The settings main memory is built from.
#[derive(Clone, Copy)]
pub struct MemoryOptions {
    pub latency: StorageLatency,
    pub stats: StorageStats,
}

impl MemoryOptions {
    /// Zero latencies and counters.
    pub fn new() -> (o: Self)
        ensures
            o.latency.hit_latency == 0 && o.latency.bus_latency == 0,
            o.stats.is_zero(),
    {
        MemoryOptions { latency: StorageLatency::default(), stats: StorageStats::default() }
    }

    /// Sets the latencies.
    pub fn latency(self, storage_latency: StorageLatency) -> (o: Self)
        ensures
            o == (MemoryOptions { latency: storage_latency, ..self }),
    {
        MemoryOptions { latency: storage_latency, ..self }
    }

    /// Sets the initial counters.
    pub fn stats(self, storage_stats: StorageStats) -> (o: Self)
        ensures
            o == (MemoryOptions { stats: storage_stats, ..self }),
    {
        MemoryOptions { stats: storage_stats, ..self }
    }

    /// A memory with these latencies and counters and no page yet; never fails.
    pub fn build(self) -> (r: Result<Memory, SimError>)
        ensures
            r matches Ok(m) && m.latency_spec() == self.latency && m.stats_spec() == self.stats
                && m.pages() == Map::<u64, Page>::empty(),
    {
        let inner = MemoryInner(HashMap::new());
        let memory = Memory { latency: self.latency, stats: self.stats, inner };
        Ok(memory)
    }
}

} // verus!
