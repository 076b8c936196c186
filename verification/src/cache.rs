use vstd::prelude::*;

use vstd::arithmetic::power2::pow2;

use crate::error::SimError;
use crate::geometry::{
    byte_offset_mask_of, cache_geometry, geometry_overflows, init_cache_config,
    law_complete_geometry_is_consistent, lemma_set_index_in_range, lemma_shl_one_is_pow2,
    is_power_of_two, log2_of_power_of_two,
    set_index_mask_of, tag_mask_of,
};
use crate::memory::Memory;
use crate::prefetch::{
    detected_stride, is_oldest_stream, lines_hold, newest_line_time, oldest_stream_evicted,
    stream_capacity, PrefetchStream, PrefetchStreamManager,
};
use crate::replacement::{
    clock_distance, clock_index, clock_skips, clock_victim, is_lru_choice, lru_victim, plru_leaf,
    plru_mark, plru_victim, pseudo_lru_victim,
};
use crate::storage::{StorageLatency, StorageStats};

verus! {

/// What a cache does when a write finds its block.
#[derive(Debug, Clone, Copy, PartialEq, Eq, Structural)]
pub enum WriteHitPolicy {
    Unset,
    WriteThrough,
    WriteBack,
}

/// What a cache does when a write misses.
#[derive(Debug, Clone, Copy, PartialEq, Eq, Structural)]
pub enum WriteMissPolicy {
    Unset,
    WriteAllocate,
    NonWriteAllocate,
}

/// How a cache chooses the line to evict from a full set.
#[derive(Debug, Clone, Copy, PartialEq, Eq, Structural)]
pub enum ReplacementPolicy {
    Unset,
    LRU,
    PseudoLRU,
    Clock,
}

/// One line of a cache set.
pub struct CacheLine {
    pub valid: bool,
    pub dirty: bool,
    pub tag: u64,
    pub set: u64,
    /// The block's bytes; as long as the cache's block size.
    pub data: Vec<u8>,
    /// The cache's clock at the line's last use, for least-recently-used replacement.
    pub timestamp: u64,
    /// Reference bit for clock replacement.
    pub used: bool,
}

impl CacheLine {
    /// An invalid, clean line holding a zeroed block of `block_size` bytes.
    pub fn new(block_size: usize) -> (l: Self)
        ensures
            !l.valid,
            !l.dirty,
            l.tag == 0,
            l.set == 0,
            l.data@ == Seq::new(block_size as nat, |i: int| 0u8),
            l.timestamp == 0,
            !l.used,
    {
        let mut data: Vec<u8> = Vec::new();
        let mut i: usize = 0;
        while i < block_size
            invariant
                i <= block_size,
                data@ == Seq::new(i as nat, |k: int| 0u8),
            decreases block_size - i,
        {
            data.push(0u8);
            i = i + 1;
        }
        CacheLine { valid: false, dirty: false, tag: 0, set: 0, data, timestamp: 0, used: false }
    }
}


/// A line as `CacheLine::new` makes it: invalid, clean, unreferenced, never used, tag
/// and set zero, holding `block_size` zero bytes.
pub open spec fn is_blank_line(l: CacheLine, block_size: nat) -> bool {
    &&& !l.valid
    &&& !l.dirty
    &&& !l.used
    &&& l.timestamp == 0
    &&& l.tag == 0
    &&& l.set == 0
    &&& l.data@ == Seq::new(block_size, |i: int| 0u8)
}

/// The lines of one set together with the state of its replacement policy.
pub struct CacheSet {
    pub(crate) cache_lines: Vec<CacheLine>,
    /// Pseudo-LRU tree bits, one per internal node (`ways - 1` of them).
    pub(crate) pseudo_lru_tree: Vec<bool>,
    /// The hand of the clock policy.
    pub(crate) clock_pointer: usize,
}

impl CacheSet {
    /// The lines of the set, in way order.
    pub closed spec fn lines(&self) -> Seq<CacheLine> {
        self.cache_lines@
    }

    /// The pseudo-LRU tree bits, in heap order (children of node `n` at `2n + 1` and `2n +
    /// 2`).
    pub closed spec fn tree(&self) -> Seq<bool> {
        self.pseudo_lru_tree@
    }

    /// The line the clock hand points at.
    pub closed spec fn hand(&self) -> usize {
        self.clock_pointer
    }

    /// A set of `ways` lines whose uses all happened no later than `clock`.
    pub closed spec fn wf(&self, ways: nat, clock: u64) -> bool {
        &&& self.cache_lines@.len() == ways
        &&& self.pseudo_lru_tree@.len() == ways - 1
        &&& self.clock_pointer < ways
        &&& forall|i: int| 0 <= i < ways ==> #[trigger] self.cache_lines@[i].timestamp <= clock
    }

    /// The valid lines of the set, which stands at `index`, carry distinct tags, record
    /// `index` as their set, and have no bit outside `tag_mask` in their tag.
    pub open spec fn tags_ok(&self, index: u64, tag_mask: u64) -> bool {
        &&& forall|j: int, k: int|
            0 <= j < k < self.lines().len() && (#[trigger] self.lines()[j]).valid
                && (#[trigger] self.lines()[k]).valid ==> self.lines()[j].tag != self.lines()[k].tag
        &&& forall|j: int|
            0 <= j < self.lines().len() && (#[trigger] self.lines()[j]).valid ==> self.lines()[j].set
                == index && self.lines()[j].tag & !tag_mask == 0
    }

    /// A set as `new` makes it: `ways` blank lines of `block_size` bytes, every pseudo-LRU
    /// tree bit clear, and the clock hand at the first line.
    pub open spec fn is_blank(&self, ways: nat, block_size: nat) -> bool {
        &&& self.lines().len() == ways
        &&& forall|j: int| 0 <= j < ways ==> is_blank_line(#[trigger] self.lines()[j], block_size)
        &&& self.tree().len() == ways - 1
        &&& forall|j: int| 0 <= j < ways - 1 ==> !(#[trigger] self.tree()[j])
        &&& self.hand() == 0
    }

    /// A set of `ways` invalid lines of `block_size` bytes.
    pub fn new(ways: usize, block_size: usize) -> (s: Self)
        requires
            1 <= ways <= usize::MAX / 2,
        ensures
            s.wf(ways as nat, 0),
            s.is_blank(ways as nat, block_size as nat),
    {
        let mut cache_lines: Vec<CacheLine> = Vec::new();
        let mut i: usize = 0;
        while i < ways
            invariant
                i <= ways,
                cache_lines@.len() == i,
                forall|j: int| 0 <= j < i ==> is_blank_line(#[trigger] cache_lines@[j], block_size as nat),
            decreases ways - i,
        {
            cache_lines.push(CacheLine::new(block_size));
            i = i + 1;
        }
        let mut pseudo_lru_tree: Vec<bool> = Vec::new();
        let mut j: usize = 0;
        while j < ways - 1
            invariant
                j <= ways - 1,
                pseudo_lru_tree@.len() == j,
                forall|k: int| 0 <= k < j ==> !(#[trigger] pseudo_lru_tree@[k]),
            decreases ways - 1 - j,
        {
            pseudo_lru_tree.push(false);
            j = j + 1;
        }
        CacheSet { cache_lines, pseudo_lru_tree, clock_pointer: 0 }
    }
}

/// All the sets of a cache.
pub struct CacheInner(pub(crate) Vec<CacheSet>);

impl CacheInner {
    /// The sets, by set index.
    pub closed spec fn sets(&self) -> Seq<CacheSet> {
        self.0@
    }

    /// `set_num` sets of `ways` invalid lines of `block_size` bytes each.
    pub fn new(set_num: usize, ways: usize, block_size: usize) -> (r: Self)
        requires
            1 <= ways <= usize::MAX / 2,
        ensures
            r.sets().len() == set_num,
            forall|i: int| 0 <= i < set_num ==> (#[trigger] r.sets()[i]).wf(ways as nat, 0),
            forall|i: int|
                0 <= i < set_num ==> (#[trigger] r.sets()[i]).is_blank(ways as nat, block_size as nat),
    {
        let mut sets: Vec<CacheSet> = Vec::new();
        let mut i: usize = 0;
        while i < set_num
            invariant
                i <= set_num,
                1 <= ways <= usize::MAX / 2,
                sets@.len() == i,
                forall|k: int| 0 <= k < i ==> (#[trigger] sets@[k]).wf(ways as nat, 0),
                forall|k: int| 0 <= k < i ==> (#[trigger] sets@[k]).is_blank(ways as nat, block_size as nat),
            decreases set_num - i,
        {
            sets.push(CacheSet::new(ways, block_size));
            i = i + 1;
        }
        CacheInner(sets)
    }
}


/// A level of the memory hierarchy: main memory, or a cache in front of a lower level.
pub enum Storage {
    Memory(Memory),
    Cache(Box<Cache>),
}

/// A set-associative cache in front of a lower storage level.
pub struct Cache {
    pub(crate) size: usize,
    pub(crate) associativity: usize,
    pub(crate) set_num: usize,
    pub(crate) block_size: usize,
    pub(crate) write_hit_policy: WriteHitPolicy,
    pub(crate) write_miss_policy: WriteMissPolicy,
    pub(crate) replacement_policy: ReplacementPolicy,
    pub(crate) lower: Storage,
    pub(crate) latency: StorageLatency,
    pub(crate) stats: StorageStats,
    pub(crate) layer: usize,
    pub(crate) byte_offset_bits: u32,
    pub(crate) byte_offset_mask: u64,
    pub(crate) set_index_bits: u32,
    pub(crate) set_index_mask: u64,
    pub(crate) tag_mask: u64,
    pub(crate) inner: CacheInner,
    pub(crate) prefetch_manager: PrefetchStreamManager,
    pub(crate) prefetch: bool,
    pub(crate) bypass: bool,
    /// Counts the requests served; a line's timestamp is the count at its last use.
    pub(crate) clock: u64,
}

impl Storage {
    /// How many caches stand in front of main memory.
    pub closed spec fn depth(self) -> nat
        decreases self,
    {
        match self {
            Storage::Memory(_) => 0,
            Storage::Cache(c) => 1 + c.lower.depth(),
        }
    }

    /// Every cache of the hierarchy from this level down keeps its invariant.
    pub closed spec fn wf(self) -> bool
        decreases self,
    {
        match self {
            Storage::Memory(_) => true,
            Storage::Cache(c) => c.local_wf() && c.lower.wf(),
        }
    }

    /// The longest time a single request can take at this level.
    pub closed spec fn max_time(self) -> nat
        decreases self,
    {
        match self {
            Storage::Memory(m) => m.request_time() as nat,
            Storage::Cache(c) => (c.latency.bus_latency + c.latency.hit_latency + 2
                * c.lower.max_time()) as nat,
        }
    }

    /// Whether `k` more requests can be served without any counter of this level or
    /// of the levels below passing its type's maximum.
    pub closed spec fn headroom(self, k: nat) -> bool
        decreases self,
    {
        match self {
            Storage::Memory(m) => {
                &&& m.stats_spec().access_counter + k <= usize::MAX
                &&& m.stats_spec().access_time + k * m.request_time() <= usize::MAX
            },
            Storage::Cache(c) => c.local_headroom(k) && c.lower.headroom(k * c.lower_calls()),
        }
    }

    /// The counters of this level.
    pub closed spec fn stats_spec(self) -> StorageStats {
        match self {
            Storage::Memory(m) => m.stats_spec(),
            Storage::Cache(c) => c.stats,
        }
    }

    /// The latencies of this level.
    pub closed spec fn latency_spec(self) -> StorageLatency {
        match self {
            Storage::Memory(m) => m.latency_spec(),
            Storage::Cache(c) => c.latency,
        }
    }

    /// Every request to this level adds exactly the time it reports to the level's access
    /// time: main memory does, and so does a cache that does not prefetch (a prefetching
    /// cache does not count the time of requests its streams serve).
    pub closed spec fn charges_reported_time(self) -> bool {
        match self {
            Storage::Memory(_) => true,
            Storage::Cache(c) => !c.prefetch,
        }
    }

    /// Whether a request for `addr` would be reported as a hit at this level.
    pub closed spec fn would_hit(self, addr: u64) -> bool {
        match self {
            Storage::Memory(_) => true,
            Storage::Cache(c) => c.would_hit(addr),
        }
    }

    /// The level `k` steps below this one (below main memory there is nothing further, so
    /// main memory stands for itself).
    pub open spec fn level(self, k: nat) -> Storage
        decreases k,
    {
        if k == 0 {
            self
        } else {
            match self {
                Storage::Memory(_) => self,
                Storage::Cache(c) => c.lower_spec().level((k - 1) as nat),
            }
        }
    }
}

impl Storage {
    /// `after` is this level once it served a request of `bytes` bytes at `addr` (a read
    /// when `read`) that returned `r`: for main memory, a hit in its request time with the
    /// pages updated (`Memory::serves`); for a cache, `Cache::cache_served`.
    pub open spec fn served(
        self,
        after: Storage,
        addr: u64,
        bytes: usize,
        read: bool,
        r: (bool, usize),
    ) -> bool
    {
        match self {
            Storage::Memory(m0) => after matches Storage::Memory(m1) && r.0 && r.1
                == m0.request_time() && m0.serves(m1, addr, bytes),
            Storage::Cache(c0) => after matches Storage::Cache(c1) && c0.cache_served(
                *c1,
                addr,
                bytes,
                read,
                r,
            ),
        }
    }

    /// What a level's own state shows of a request of `bytes` bytes at `addr` (a read when
    /// `read`) that returned `r`, leaving this level as `after`: for main memory, a hit in
    /// its request time with the pages updated; for a cache, the hit flag, its counters,
    /// its latencies, the sets other than the addressed one unchanged, and after a read the
    /// block cached.
    pub open spec fn answered(
        self,
        after: Storage,
        addr: u64,
        bytes: usize,
        read: bool,
        r: (bool, usize),
    ) -> bool {
        match self {
            Storage::Memory(m0) => after matches Storage::Memory(m1) && r.0 && r.1
                == m0.request_time() && m0.serves(m1, addr, bytes),
            Storage::Cache(c0) => after matches Storage::Cache(c1) && {
                &&& r.0 == c0.would_hit(addr)
                &&& c1.stats_spec() == c0.stats_after(addr, read, r)
                &&& c1.latency_spec() == c0.latency_spec()
                &&& read ==> c1.would_hit(addr)
                &&& forall|a: u64|
                    c0.set_index_of(a) != c0.set_index_of(addr) ==> #[trigger] c1.lines_for(a)
                        == c0.lines_for(a)
            },
        }
    }
}

/// `s1` is `s0` once it answered the request `q` (address, bytes, read): see
/// `Storage::answered`.
pub open spec fn answered_request(s0: Storage, s1: Storage, q: (u64, usize, bool)) -> bool {
    exists|r: (bool, usize)| s0.answered(s1, q.0, q.1, q.2, r)
}

/// `states` are the states a level passes through while answering `reqs` in order.
pub open spec fn answered_in_order(states: Seq<Storage>, reqs: Seq<(u64, usize, bool)>) -> bool {
    &&& states.len() == reqs.len() + 1
    &&& forall|i: int|
        0 <= i < reqs.len() ==> #[trigger] answered_request(states[i], states[i + 1], reqs[i])
}

/// Main memory has no cache in front of it and is always well formed.
pub proof fn lemma_memory_level(m: Memory)
    ensures
        Storage::Memory(m).depth() == 0,
        Storage::Memory(m).wf(),
{
}

/// Main memory charges every request the time it reports, and a cache does exactly when
/// it does not prefetch.
pub proof fn lemma_charging_levels(m: Memory, c: Cache)
    ensures
        Storage::Memory(m).charges_reported_time(),
        Storage::Cache(Box::new(c)).charges_reported_time() == !c.prefetch_spec(),
{
}

/// Putting a cache in front of its lower level adds one level, and the result is well
/// formed exactly when the cache is.
pub proof fn lemma_stack_cache(c: Cache)
    ensures
        Storage::Cache(Box::new(c)).depth() == c.lower_spec().depth() + 1,
        Storage::Cache(Box::new(c)).wf() == c.wf(),
        c.wf() ==> c.lower_spec().wf(),
{
}

impl Cache {
    /// The greatest number of requests one request to this cache sends to the level below.
    pub closed spec fn lower_calls(self) -> nat {
        if self.prefetch {
            (self.prefetch_manager.stream_buffer_depth + 2) as nat
        } else {
            2
        }
    }

    /// The longest time one request to this cache can take (see `Storage::max_time`).
    pub closed spec fn max_time(self) -> nat {
        Storage::Cache(Box::new(self)).max_time()
    }

    /// Whether this cache's own counters and clock can take `k` more requests.
    pub closed spec fn local_headroom(self, k: nat) -> bool {
        &&& self.stats.access_counter + k <= usize::MAX
        &&& self.stats.miss_num + k <= usize::MAX
        &&& self.stats.fetch_num + k <= usize::MAX
        &&& self.stats.replace_num + k <= usize::MAX
        &&& self.stats.prefetch_hit + k <= usize::MAX
        &&& self.stats.prefetch_num + k * self.prefetch_manager.stream_buffer_depth <= usize::MAX
        &&& self.stats.access_time + k * self.max_time() <= usize::MAX
        &&& self.clock + k <= u64::MAX
    }

    /// Whether this cache and the levels below can take `k` more requests.
    pub closed spec fn headroom(self, k: nat) -> bool {
        self.local_headroom(k) && self.lower.headroom(k * self.lower_calls())
    }

    /// The invariant of the cache itself (its lower level has its own).
    pub closed spec fn local_wf(self) -> bool {
        &&& self.write_hit_policy != WriteHitPolicy::Unset
        &&& self.write_miss_policy != WriteMissPolicy::Unset
        &&& self.replacement_policy != ReplacementPolicy::Unset
        &&& 1 <= self.associativity <= usize::MAX / 2
        &&& self.set_num >= 1
        &&& self.byte_offset_bits < 64
        &&& self.byte_offset_bits < usize::BITS
        &&& self.set_index_bits < 64
        &&& self.byte_offset_bits + self.set_index_bits <= 64
        &&& pow2(self.byte_offset_bits as nat) == self.block_size
        &&& pow2(self.set_index_bits as nat) == self.set_num
        &&& self.byte_offset_mask == byte_offset_mask_of(self.byte_offset_bits)
        &&& self.set_index_mask == set_index_mask_of(self.byte_offset_bits, self.set_index_bits)
        &&& self.tag_mask == tag_mask_of(self.byte_offset_bits, self.set_index_bits)
        &&& self.inner.sets().len() == self.set_num
        &&& forall|i: int|
            0 <= i < self.set_num ==> (#[trigger] self.inner.sets()[i]).wf(
                self.associativity as nat,
                self.clock,
            )
        &&& self.prefetch ==> self.prefetch_manager.stream_buffer_depth >= 1
        &&& forall|i: int|
            0 <= i < self.set_num ==> (#[trigger] self.inner.sets()[i]).tags_ok(i as u64, self.tag_mask)
        &&& self.prefetch_manager.streams@.len() <= stream_capacity(self.prefetch_manager.max_streams)
        &&& forall|k: i64| #[trigger]
            self.prefetch_manager.streams@.contains_key(k) ==> self.prefetch_manager.streams@[k].buffer@.len()
                <= self.prefetch_manager.stream_buffer_depth
        &&& forall|k: i64| #[trigger]
            self.prefetch_manager.streams@.contains_key(k) ==> self.prefetch_manager.streams@[k].buffer@.len()
                >= 1 && newest_line_time(self.prefetch_manager.streams@[k]) <= self.clock
    }

    /// The invariant of the cache and of every level below it.
    pub closed spec fn wf(self) -> bool {
        self.local_wf() && self.lower.wf()
    }

    /// The set an address maps to: the low set-index bits of the address.
    pub closed spec fn set_index_of(self, addr: u64) -> u64 {
        addr & (self.set_index_mask >> self.byte_offset_bits)
    }

    /// The tag an address is stored under.
    pub closed spec fn tag_of(self, addr: u64) -> u64 {
        addr & self.tag_mask
    }

    /// The lines of the set `addr` maps to.
    pub closed spec fn lines_for(self, addr: u64) -> Seq<CacheLine> {
        self.inner.sets()[self.set_index_of(addr) as int].lines()
    }

    /// A valid line of the set `addr` maps to carries the tag of `addr`.
    pub closed spec fn line_hit(self, addr: u64) -> bool {
        exists|i: int|
            0 <= i < self.lines_for(addr).len() && (#[trigger] self.lines_for(addr)[i]).valid
                && self.lines_for(addr)[i].tag == self.tag_of(addr)
    }

    /// Prefetching is on and a prefetch stream holds the block of `addr`.
    pub closed spec fn stream_hit(self, addr: u64) -> bool {
        self.prefetch && self.prefetch_manager.holds(self.tag_of(addr), self.set_index_of(addr))
    }

    /// Whether a request for `addr` is reported as a hit.
    pub closed spec fn would_hit(self, addr: u64) -> bool {
        self.line_hit(addr) || self.stream_hit(addr)
    }
}


/// Room for `a` more requests leaves room for any smaller number.
pub proof fn lemma_headroom_monotone(s: Storage, a: nat, b: nat)
    requires
        s.headroom(a),
        b <= a,
    ensures
        s.headroom(b),
    decreases s,
{
    match s {
        Storage::Memory(m) => {
            assert(b * m.request_time() <= a * m.request_time()) by (nonlinear_arith)
                requires
                    b <= a,
                    m.request_time() >= 0,
            ;
        },
        Storage::Cache(c) => {
            let d = c.prefetch_manager.stream_buffer_depth as int;
            let t = c.max_time() as int;
            let l = c.lower_calls() as int;
            assert(b * d <= a * d && b * t <= a * t && b * l <= a * l) by (nonlinear_arith)
                requires
                    b <= a,
                    d >= 0,
                    t >= 0,
                    l >= 0,
            ;
            lemma_headroom_monotone(c.lower, a * c.lower_calls(), b * c.lower_calls());
        },
    }
}


/// Every line of `new_set` equals the line of `old_set` at the same place, except perhaps
/// for its reference bit.
pub open spec fn same_lines_but_used(old_lines: Seq<CacheLine>, new_lines: Seq<CacheLine>) -> bool {
    &&& new_lines.len() == old_lines.len()
    &&& forall|j: int|
        #![trigger new_lines[j]]
        0 <= j < new_lines.len() ==> {
            &&& new_lines[j].valid == old_lines[j].valid
            &&& new_lines[j].dirty == old_lines[j].dirty
            &&& new_lines[j].tag == old_lines[j].tag
            &&& new_lines[j].set == old_lines[j].set
            &&& new_lines[j].data == old_lines[j].data
            &&& new_lines[j].timestamp == old_lines[j].timestamp
        }
}

impl CacheSet {
    /// `new_set` is `self` after choosing `victim` for eviction under `policy`, `now` being
    /// the clock reading: the least recently used line (`is_lru_choice`); the line the pseudo-LRU tree designates, with the tree then
    /// pointing away from it; or the clock's choice, with the reference bits it passed
    /// cleared and the hand moved past the victim.
    pub open spec fn evicts(
        self,
        new_set: CacheSet,
        policy: ReplacementPolicy,
        victim: int,
        now: u64,
    ) -> bool {
        let n = self.lines().len() as int;
        &&& same_lines_but_used(self.lines(), new_set.lines())
        &&& 0 <= victim < n
        &&& new_set.tree().len() == self.tree().len()
        &&& new_set.hand() < n
        &&& match policy {
            ReplacementPolicy::LRU => {
                &&& is_lru_choice(self.lines(), victim, now)
                &&& new_set == self
            },
            ReplacementPolicy::PseudoLRU => {
                &&& victim == plru_victim(self.tree(), n - 1)
                &&& new_set.tree() == plru_mark(
                    self.tree(),
                    plru_leaf(self.tree(), 0, n - 1),
                )
                &&& new_set.lines() == self.lines()
                &&& new_set.hand() == self.hand()
            },
            ReplacementPolicy::Clock => {
                let k = clock_skips(self.lines(), self.hand() as int, 0);
                &&& victim == clock_index(self.hand() as int, k, n)
                &&& forall|j: int|
                    0 <= j < n ==> #[trigger] new_set.lines()[j].used == (
                    self.lines()[j].used && clock_distance(self.hand() as int, j, n)
                        >= k)
                &&& new_set.hand() == (victim + 1) % n
                &&& new_set.tree() == self.tree()
            },
            ReplacementPolicy::Unset => false,
        }
    }
}

impl Cache {
    /// Chooses a line of a full set to evict under `replacement_policy` and, when the
    /// cache writes back and the line is dirty, writes its block to the lower level.
    /// Returns the evicted line's index and the time of the write-back (zero without one).
    pub fn cache_set_evict_one(
        cache_set: &mut CacheSet,
        lower: &mut Storage,
        replacement_policy: ReplacementPolicy,
        write_hit_policy: WriteHitPolicy,
        byte_offset_bits: u32,
        now: u64,
    ) -> (r: (usize, usize))
        requires
            1 <= old(cache_set).lines().len() <= usize::MAX / 2,
            old(cache_set).tree().len() == old(cache_set).lines().len() - 1,
            old(cache_set).hand() < old(cache_set).lines().len(),
            replacement_policy != ReplacementPolicy::Unset,
            byte_offset_bits < usize::BITS,
            old(lower).wf(),
            old(lower).headroom(1),
        ensures
            old(cache_set).evicts(*final(cache_set), replacement_policy, r.0 as int, now),
            ({
                let v = old(cache_set).lines()[r.0 as int];
                if v.dirty && write_hit_policy == WriteHitPolicy::WriteBack {
                    &&& final(lower).stats_spec().access_counter == old(lower).stats_spec().access_counter + 1
                    &&& r.1 <= old(lower).max_time()
                    &&& exists|w: (bool, usize)|
                        old(lower).answered(
                            *final(lower),
                            v.tag | ((r.0 as u64) << byte_offset_bits),
                            1usize << byte_offset_bits,
                            false,
                            w,
                        ) && r.1 == w.1
                } else {
                    &&& *final(lower) == *old(lower)
                    &&& r.1 == 0
                }
            }),
            final(lower).wf(),
            final(lower).depth() == old(lower).depth(),
            final(lower).max_time() == old(lower).max_time(),
            final(lower).latency_spec() == old(lower).latency_spec(),
            forall|k: nat| #[trigger] final(lower).headroom(k) <== old(lower).headroom(k + 1),
            final(lower).charges_reported_time() == old(lower).charges_reported_time(),
            old(lower).charges_reported_time() ==> final(lower).stats_spec().access_time
                == old(lower).stats_spec().access_time + r.1,
        decreases old(lower).depth(), 4int,
    {
        let mut time: usize = 0;
        let ghost s0 = *cache_set;
        let len = cache_set.cache_lines.len();
        let idx = match replacement_policy {
            ReplacementPolicy::LRU => lru_victim(&cache_set.cache_lines, now),
            ReplacementPolicy::PseudoLRU => pseudo_lru_victim(&mut cache_set.pseudo_lru_tree, len),
            ReplacementPolicy::Clock => {
                let idx = clock_victim(&mut cache_set.cache_lines, cache_set.clock_pointer);
                cache_set.clock_pointer = (idx + 1) % len;
                idx
            },
            ReplacementPolicy::Unset => 0,
        };
        if cache_set.cache_lines[idx].dirty && write_hit_policy == WriteHitPolicy::WriteBack {
            let addr = cache_set.cache_lines[idx].tag | ((idx as u64) << byte_offset_bits);
            let (wb_hit, wb_time) = lower.handle_request(addr, 1usize << byte_offset_bits, false);
            time = time + wb_time;
            proof {
                assert(old(lower).answered(*lower, addr, 1usize << byte_offset_bits, false, (wb_hit, wb_time)));
            }
        } else {
            proof {
                assert forall|k: nat| old(lower).headroom(k + 1) implies #[trigger] lower.headroom(k) by {
                    if old(lower).headroom(k + 1) {
                        lemma_headroom_monotone(*old(lower), k + 1, k);
                    }
                }
            }
        }
        (idx, time)
    }
}


impl Storage {
    /// Serves a request of `bytes` bytes at `addr` at this level (and, for a cache, at
    /// the levels below as needed).  Returns `(hit, time)`.
    pub fn handle_request(&mut self, addr: u64, bytes: usize, read: bool) -> (r: (bool, usize))
        requires
            old(self).wf(),
            old(self).headroom(1),
        ensures
            final(self).wf(),
            final(self).depth() == old(self).depth(),
            final(self).max_time() == old(self).max_time(),
            final(self).latency_spec() == old(self).latency_spec(),
            forall|k: nat| #[trigger] final(self).headroom(k) <== old(self).headroom(k + 1),
            final(self).stats_spec().access_counter == old(self).stats_spec().access_counter + 1,
            r.0 == old(self).would_hit(addr),
            read ==> final(self).would_hit(addr),
            r.1 <= old(self).max_time(),
            *old(self) matches Storage::Memory(m0) ==> (*final(self) matches Storage::Memory(m1)
                && r.1 == m0.request_time() && m0.serves(m1, addr, bytes)),
            *old(self) matches Storage::Cache(c0) ==> (*final(self) matches Storage::Cache(c1)
                && c1.stats_spec() == c0.stats_after(addr, read, r)),
            final(self).charges_reported_time() == old(self).charges_reported_time(),
            old(self).charges_reported_time() ==> final(self).stats_spec().access_time
                == old(self).stats_spec().access_time + r.1,
            old(self).served(*final(self), addr, bytes, read, r),
            old(self).answered(*final(self), addr, bytes, read, r),
        decreases old(self).depth(), 3int,
    {
        let ghost s0 = *self;
        let r = match self {
            Storage::Memory(m) => m.handle_request(addr, bytes, read),
            Storage::Cache(c) => c.handle_request(addr, bytes, read),
        };
        let ghost s1 = *self;
        proof {
            if let Storage::Memory(m0) = s0 {
                let rt = m0.request_time();
                assert forall|k: nat| s0.headroom(k + 1) implies #[trigger] self.headroom(k) by {
                    assert((k + 1) * rt == k * rt + rt) by (nonlinear_arith);
                }
            }
            if let Storage::Cache(c0) = s0 {
                if let Storage::Cache(c1) = s1 {
                    assert forall|k: nat| s0.headroom(k + 1) implies #[trigger] self.headroom(k) by {
                        if s0.headroom(k + 1) {
                            assert(c0.headroom(k + 1));
                            assert(c1.headroom(k));
                        }
                    }
                }
            }
        }
        r
    }
}


/// The first line of `lines` that is valid and carries `tag`.
pub fn find_line(lines: &Vec<CacheLine>, tag: u64) -> (r: Option<usize>)
    ensures
        match r {
            Some(i) => {
                &&& i < lines.len()
                &&& lines@[i as int].valid && lines@[i as int].tag == tag
                &&& forall|j: int| 0 <= j < i ==> !(#[trigger] lines@[j].valid && lines@[j].tag == tag)
            },
            None => forall|j: int| 0 <= j < lines.len() ==> !(#[trigger] lines@[j].valid && lines@[j].tag == tag),
        },
{
    let mut i: usize = 0;
    while i < lines.len()
        invariant
            i <= lines.len(),
            forall|j: int| 0 <= j < i ==> !(#[trigger] lines@[j].valid && lines@[j].tag == tag),
        decreases lines.len() - i,
    {
        if lines[i].valid && lines[i].tag == tag {
            return Some(i);
        }
        i = i + 1;
    }
    None
}

/// The first invalid line of `lines`.
pub fn find_invalid_line(lines: &Vec<CacheLine>) -> (r: Option<usize>)
    ensures
        match r {
            Some(i) => {
                &&& i < lines.len()
                &&& !lines@[i as int].valid
                &&& forall|j: int| 0 <= j < i ==> (#[trigger] lines@[j]).valid
            },
            None => forall|j: int| 0 <= j < lines.len() ==> (#[trigger] lines@[j]).valid,
        },
{
    let mut i: usize = 0;
    while i < lines.len()
        invariant
            i <= lines.len(),
            forall|j: int| 0 <= j < i ==> (#[trigger] lines@[j]).valid,
        decreases lines.len() - i,
    {
        if !lines[i].valid {
            return Some(i);
        }
        i = i + 1;
    }
    None
}

impl Cache {
    /// Fetches the block of `addr` from the lower level and picks the line of the set
    /// that will hold it: the first invalid line, or else a line evicted under
    /// `replacement_policy` (written back first if dirty under write-back).  Returns the
    /// line's index, the time spent at the lower level, and whether a line was evicted.
    pub fn get_lower_block(
        cache_set: &mut CacheSet,
        addr: u64,
        block_size: usize,
        lower: &mut Storage,
        replacement_policy: ReplacementPolicy,
        write_hit_policy: WriteHitPolicy,
        byte_offset_bits: u32,
        now: u64,
    ) -> (r: (usize, usize, bool))
        requires
            1 <= old(cache_set).lines().len() <= usize::MAX / 2,
            old(cache_set).tree().len() == old(cache_set).lines().len() - 1,
            old(cache_set).hand() < old(cache_set).lines().len(),
            replacement_policy != ReplacementPolicy::Unset,
            byte_offset_bits < 64,
            byte_offset_bits < usize::BITS,
            old(lower).wf(),
            old(lower).headroom(2),
        ensures
            r.0 < old(cache_set).lines().len(),
            r.2 == (forall|j: int|
                0 <= j < old(cache_set).lines().len() ==> (#[trigger] old(cache_set).lines()[j]).valid),
            !r.2 ==> {
                &&& *final(cache_set) == *old(cache_set)
                &&& !old(cache_set).lines()[r.0 as int].valid
                &&& forall|j: int| 0 <= j < r.0 ==> (#[trigger] old(cache_set).lines()[j]).valid
            },
            r.2 ==> old(cache_set).evicts(*final(cache_set), replacement_policy, r.0 as int, now),
            final(lower).wf(),
            final(lower).depth() == old(lower).depth(),
            final(lower).max_time() == old(lower).max_time(),
            final(lower).latency_spec() == old(lower).latency_spec(),
            forall|k: nat| #[trigger] final(lower).headroom(k) <== old(lower).headroom(k + 2),
            r.1 <= 2 * old(lower).max_time(),
            final(lower).charges_reported_time() == old(lower).charges_reported_time(),
            old(lower).charges_reported_time() ==> final(lower).stats_spec().access_time
                == old(lower).stats_spec().access_time + r.1,
            old(lower).stats_spec().access_counter + 1 <= final(lower).stats_spec().access_counter
                <= old(lower).stats_spec().access_counter + 2,
            !r.2 || write_hit_policy != WriteHitPolicy::WriteBack ==> final(lower).stats_spec().access_counter
                == old(lower).stats_spec().access_counter + 1,
            exists|mid: Storage, f: (bool, usize)|
                {
                    &&& mid.depth() == old(lower).depth()
                    &&& old(lower).answered(
                        mid,
                        (addr >> byte_offset_bits) << byte_offset_bits,
                        block_size,
                        true,
                        f,
                    )
                    &&& if r.2 && old(cache_set).lines()[r.0 as int].dirty && write_hit_policy
                        == WriteHitPolicy::WriteBack {
                        exists|w: (bool, usize)|
                            mid.answered(
                                *final(lower),
                                old(cache_set).lines()[r.0 as int].tag | ((r.0 as u64)
                                    << byte_offset_bits),
                                1usize << byte_offset_bits,
                                false,
                                w,
                            ) && r.1 == f.1 + w.1
                    } else {
                        *final(lower) == mid && r.1 == f.1
                    }
                },
        decreases old(lower).depth(), 5int,
    {
        let mut time: usize = 0;
        let ghost l0 = *lower;
        proof {
            lemma_headroom_monotone(l0, 2, 1);
        }
        let (rd_hit, rd_time) = lower.handle_request(
            (addr >> byte_offset_bits) << byte_offset_bits,
            block_size,
            true,
        );
        time = time + rd_time;
        let ghost l1 = *lower;
        let ghost f = (rd_hit, rd_time);
        let ghost s0 = *cache_set;
        assert(l0.answered(l1, (addr >> byte_offset_bits) << byte_offset_bits, block_size, true, f));
        proof {
            assert(l1.headroom(1));
        }
        let mut evicted = false;
        let res = match find_invalid_line(&cache_set.cache_lines) {
            Some(i) => {
                proof {
                    assert forall|k: nat| l0.headroom(k + 2) implies #[trigger] lower.headroom(k) by {
                        if l0.headroom(k + 2) {
                            assert(l1.headroom(k + 1));
                            lemma_headroom_monotone(l1, k + 1, k);
                        }
                    }
                }
                i
            },
            None => {
                evicted = true;
                let (i, add_time) = Cache::cache_set_evict_one(
                    cache_set,
                    lower,
                    replacement_policy,
                    write_hit_policy,
                    byte_offset_bits,
                    now,
                );
                time = time + add_time;
                proof {
                    assert forall|k: nat| l0.headroom(k + 2) implies #[trigger] lower.headroom(k) by {
                        if l0.headroom(k + 2) {
                            assert(l1.headroom(k + 1));
                        }
                    }
                }
                i
            },
        };
        proof {
            if evicted && s0.lines()[res as int].dirty && write_hit_policy == WriteHitPolicy::WriteBack {
                let w = choose|w: (bool, usize)|
                    l1.answered(
                        *lower,
                        s0.lines()[res as int].tag | ((res as u64) << byte_offset_bits),
                        1usize << byte_offset_bits,
                        false,
                        w,
                    ) && time - rd_time == w.1;
                assert(l1.answered(
                    *lower,
                    s0.lines()[res as int].tag | ((res as u64) << byte_offset_bits),
                    1usize << byte_offset_bits,
                    false,
                    w,
                ));
            }
        }
        (res, time, evicted)
    }
}


/// The last `n` lines of `lines`.
pub open spec fn last_lines(lines: Seq<CacheLine>, n: int) -> Seq<CacheLine> {
    lines.subrange(lines.len() - n, lines.len() as int)
}

impl Cache {
    /// The fields that serving a request leaves as they were.
    pub closed spec fn same_layout(self, other: Cache) -> bool {
        &&& self.size == other.size
        &&& self.associativity == other.associativity
        &&& self.set_num == other.set_num
        &&& self.block_size == other.block_size
        &&& self.write_hit_policy == other.write_hit_policy
        &&& self.write_miss_policy == other.write_miss_policy
        &&& self.replacement_policy == other.replacement_policy
        &&& self.latency == other.latency
        &&& self.layer == other.layer
        &&& self.byte_offset_bits == other.byte_offset_bits
        &&& self.byte_offset_mask == other.byte_offset_mask
        &&& self.set_index_bits == other.set_index_bits
        &&& self.set_index_mask == other.set_index_mask
        &&& self.tag_mask == other.tag_mask
        &&& self.prefetch == other.prefetch
        &&& self.bypass == other.bypass
        &&& self.prefetch_manager.max_streams == other.prefetch_manager.max_streams
        &&& self.prefetch_manager.stream_buffer_depth == other.prefetch_manager.stream_buffer_depth
    }

    /// Prefetches the `stream_buffer_depth` blocks that follow `addr` along the stride
    /// detected for it into that stride's stream, fetching each from the lower level.
    #[verifier::rlimit(40)]
    fn prefetch_on_miss(&mut self, addr: u64, now: u64)
        requires
            old(self).prefetch,
            old(self).local_wf(),
            old(self).lower.wf(),
            old(self).clock == now,
            old(self).stats.prefetch_num + old(self).prefetch_manager.stream_buffer_depth <= usize::MAX,
            old(self).lower.headroom(old(self).prefetch_manager.stream_buffer_depth as nat),
            forall|k: i64| #[trigger]
                old(self).prefetch_manager.streams@.contains_key(k) ==> newest_line_time(
                    old(self).prefetch_manager.streams@[k],
                ) < now,
        ensures
            final(self).same_layout(*old(self)),
            final(self).inner == old(self).inner,
            final(self).clock == old(self).clock,
            final(self).local_wf(),
            final(self).lower.wf(),
            final(self).lower.depth() == old(self).lower.depth(),
            final(self).lower.max_time() == old(self).lower.max_time(),
            final(self).lower.latency_spec() == old(self).lower.latency_spec(),
            forall|k: nat| #[trigger]
                final(self).lower.headroom(k) <== old(self).lower.headroom(
                    (k + old(self).prefetch_manager.stream_buffer_depth) as nat,
                ),
            final(self).stats == (StorageStats {
                prefetch_num: (old(self).stats.prefetch_num
                    + old(self).prefetch_manager.stream_buffer_depth) as usize,
                ..old(self).stats
            }),
            exists|states: Seq<Storage>|
                #[trigger] answered_in_order(states, old(self).prefetch_requests(addr)) && states[0]
                    == old(self).lower && states.last() == final(self).lower,
            old(self).prefetch_recorded(*final(self), addr),
        decreases old(self).lower.depth() + 1, 1int,
    {
        let ghost s0 = *self;
        let stride = self.prefetch_manager.record_addr(addr);
        let depth = self.prefetch_manager.stream_buffer_depth;
        let ghost m0 = self.prefetch_manager.streams@;
        let _ = self.prefetch_manager.get_stream(stride, depth, now);
        let ghost m_mid = self.prefetch_manager.streams@;
        let mut stream = self.prefetch_manager.streams.remove(&stride).unwrap();
        let ghost m_rest = self.prefetch_manager.streams@;
        proof {
            assert(m_mid.contains_key(stride));
            assert(m_rest == m_mid.remove(stride));
            assert(m_mid[stride].buffer@.len() <= s0.prefetch_manager.stream_buffer_depth);
            assert forall|k: i64| #[trigger] m_rest.contains_key(k) implies m0.contains_key(k)
                && m_rest[k] == m0[k] by {
                if !m0.contains_key(stride) {
                    let m1 = choose|m1: Map<i64, PrefetchStream>|
                        {
                            &&& (if m0.len() >= s0.prefetch_manager.max_streams {
                                oldest_stream_evicted(m0, m1)
                            } else {
                                m1 == m0
                            })
                            &&& m_mid == #[trigger] m1.insert(stride, m_mid[stride])
                        };
                    if m0.len() >= s0.prefetch_manager.max_streams {
                        if m0.dom().len() != 0 {
                            let e = choose|e: i64| is_oldest_stream(m0, e) && m1 == m0.remove(e);
                            assert(m1.contains_key(k));
                        }
                    }
                }
            }
        }
        let ghost reqs = s0.prefetch_requests(addr);
        let ghost mut states: Seq<Storage> = seq![s0.lower];
        proof {
            assert(reqs.take(0) =~= Seq::<(u64, usize, bool)>::empty());
        }
        let mut i: usize = 0;
        while i < depth
            invariant
                i <= depth,
                depth == s0.prefetch_manager.stream_buffer_depth,
                depth >= 1,
                s0.local_wf(),
                self.same_layout(s0),
                self.inner == s0.inner,
                self.clock == s0.clock,
                self.clock == now,
                self.prefetch_manager.max_streams == s0.prefetch_manager.max_streams,
                self.prefetch_manager.stream_buffer_depth == depth,
                self.prefetch_manager.streams@ == m_rest,
                self.lower.wf(),
                reqs == s0.prefetch_requests(addr),
                stride == detected_stride(s0.prefetch_manager.access_history@, addr),
                states[0] == s0.lower,
                states.last() == self.lower,
                answered_in_order(states, reqs.take(i as int)),
                self.lower.depth() == s0.lower.depth(),
                self.lower.depth() == old(self).lower.depth(),
                self.lower.max_time() == s0.lower.max_time(),
                self.lower.latency_spec() == s0.lower.latency_spec(),
                forall|k: nat| #[trigger] self.lower.headroom(k) <== s0.lower.headroom((k + i) as nat),
                s0.lower.headroom(depth as nat),
                self.stats == (StorageStats {
                    prefetch_num: (s0.stats.prefetch_num + i) as usize,
                    ..s0.stats
                }),
                s0.stats.prefetch_num + depth <= usize::MAX,
                i == 0 ==> stream.buffer@ == m_mid[stride].buffer@,
                stream.buffer@.len() <= depth,
                stream.stride == m_mid[stride].stride,
                stream.depth == m_mid[stride].depth,
                stream.timestamp == m_mid[stride].timestamp,
                stream.buffer@.len() == (if m_mid[stride].buffer@.len() + i <= depth {
                    m_mid[stride].buffer@.len() + i
                } else {
                    depth as int
                }),
                forall|k: int|
                    0 <= k < i ==> s0.is_prefetched_line(
                        #[trigger] last_lines(stream.buffer@, i as int)[k],
                        addr,
                        k,
                        stride,
                        now,
                    ),
                s0.prefetch_manager.streams@ == m0,
                self.prefetch_manager.access_history@ == s0.prefetch_manager.access_history@.push(
                    (addr, stride),
                ),
                i > 0 ==> stream.buffer@.len() >= 1 && stream.buffer@[stream.buffer@.len() - 1].timestamp
                    == now,
                forall|k: i64| #[trigger]
                    m_rest.contains_key(k) ==> m0.contains_key(k) && m_rest[k] == m0[k],
            decreases depth - i,
        {
            self.stats.prefetch_num = self.stats.prefetch_num + 1;
            let prefetch_addr = (addr as i64).wrapping_add((i as i64).wrapping_mul(stride));
            let prefetch_addr = ((prefetch_addr as u64) >> self.byte_offset_bits)
                << self.byte_offset_bits;
            proof {
                lemma_headroom_monotone(s0.lower, depth as nat, (i + 1) as nat);
                assert(self.lower.headroom(1));
            }
            let ghost l_before = self.lower;
            let (pf_hit, pf_time) = self.lower.handle_request(prefetch_addr, self.block_size, true);
            proof {
                let states0 = states;
                states = states.push(self.lower);
                assert(reqs[i as int] == (prefetch_addr, self.block_size, true));
                assert(l_before.answered(self.lower, prefetch_addr, self.block_size, true, (pf_hit, pf_time)));
                assert(reqs[i as int].0 == prefetch_addr && reqs[i as int].1 == self.block_size
                    && reqs[i as int].2);
                assert(l_before.answered(self.lower, reqs[i as int].0, reqs[i as int].1, reqs[i as int].2, (pf_hit, pf_time)));
                assert(answered_request(l_before, self.lower, reqs[i as int]));
                assert(reqs.take(i + 1) =~= reqs.take(i as int).push(reqs[i as int]));
                assert forall|q: int| 0 <= q < i + 1 implies #[trigger] answered_request(
                    states[q],
                    states[q + 1],
                    reqs.take(i + 1)[q],
                ) by {
                    if q < i {
                        assert(answered_request(states0[q], states0[q + 1], reqs.take(i as int)[q]));
                    }
                }
                assert forall|k: nat| s0.lower.headroom((k + i + 1) as nat) implies #[trigger] self.lower.headroom(k) by {
                    if s0.lower.headroom((k + i + 1) as nat) {
                        assert(l_before.headroom(k + 1));
                    }
                }
            }
            let mut cache_line = CacheLine::new(self.block_size);
            cache_line.tag = prefetch_addr & self.tag_mask;
            cache_line.set = prefetch_addr & self.set_index_mask >> self.byte_offset_bits;
            cache_line.timestamp = now;
            let ghost buf0 = stream.buffer@;
            if stream.buffer.len() >= depth {
                stream.buffer.pop_front();
            }
            let ghost buf1 = stream.buffer@;
            stream.buffer.push_back(cache_line);
            proof {
                assert(prefetch_addr == s0.prefetch_addr(addr, i as int, stride));
                assert(s0.is_prefetched_line(cache_line, addr, i as int, stride, now));
                let buf2 = stream.buffer@;
                assert(buf2 == buf1.push(cache_line));
                assert forall|k: int| 0 <= k < i + 1 implies s0.is_prefetched_line(
                    #[trigger] last_lines(buf2, i + 1)[k],
                    addr,
                    k,
                    stride,
                    now,
                ) by {
                    if k < i {
                        assert(last_lines(buf2, i + 1)[k] == last_lines(buf0, i as int)[k]);
                    }
                }
            }
            i = i + 1;
        }
        let ghost st = stream;
        self.prefetch_manager.streams.insert(stride, stream);
        proof {
            assert(last_lines(st.buffer@, depth as int) =~= st.buffer@);
            assert forall|k: int| 0 <= k < depth implies s0.is_prefetched_line(
                #[trigger] st.buffer@[k],
                addr,
                k,
                stride,
                now,
            ) by {
                assert(last_lines(st.buffer@, depth as int)[k] == st.buffer@[k]);
            }
            if m0.contains_key(stride) {
                assert(self.prefetch_manager.streams@ =~= m0.insert(stride, st));
                assert(m0.insert(stride, st) == self.streams_spec());
            } else {
                let m1 = choose|m1: Map<i64, PrefetchStream>|
                    {
                        &&& (if m0.len() >= s0.prefetch_manager.max_streams {
                            oldest_stream_evicted(m0, m1)
                        } else {
                            m1 == m0
                        })
                        &&& m_mid == #[trigger] m1.insert(stride, m_mid[stride])
                    };
                if m0.len() >= s0.prefetch_manager.max_streams && m0.dom().len() != 0 {
                    let e = choose|e: i64| is_oldest_stream(m0, e) && m1 == m0.remove(e);
                    assert(!m1.contains_key(stride));
                }
                assert(!m1.contains_key(stride));
                assert(m_rest =~= m1);
                assert(self.prefetch_manager.streams@ =~= m1.insert(stride, st));
                assert(m1.insert(stride, st) == self.streams_spec());
            }
            assert(reqs.take(depth as int) =~= reqs);
            assert(answered_in_order(states, s0.prefetch_requests(addr)));
            assert(s0.streams_spec() == m0);
            assert(self.history_spec() == s0.history_spec().push((addr, stride)));
            assert(st.timestamp == now);
            assert(st.stride == (if m0.contains_key(stride) { m0[stride].stride } else { stride }));
            assert(st.depth == (if m0.contains_key(stride) { m0[stride].depth } else { depth }));
            assert(st.buffer@.len() == depth);
            assert(self.clock_spec() == now);
            assert(s0.prefetch_recorded(*self, addr));
            assert forall|k: i64| #[trigger]
                self.prefetch_manager.streams@.contains_key(k) implies self.prefetch_manager.streams@[k].buffer@.len()
                >= 1 && newest_line_time(self.prefetch_manager.streams@[k]) <= self.clock by {
                if k != stride {
                    assert(m_rest.contains_key(k));
                }
            }
        }
    }
}


impl Cache {
    /// Every line of the set `addr` maps to is valid.
    pub closed spec fn set_full(self, addr: u64) -> bool {
        forall|i: int| 0 <= i < self.lines_for(addr).len() ==> (#[trigger] self.lines_for(addr)[i]).valid
    }

    /// A valid, dirty line of the set `addr` maps to carries the tag of `addr`.
    pub closed spec fn dirty_hit(self, addr: u64) -> bool {
        exists|i: int|
            0 <= i < self.lines_for(addr).len() && (#[trigger] self.lines_for(addr)[i]).valid
                && self.lines_for(addr)[i].tag == self.tag_of(addr) && self.lines_for(addr)[i].dirty
    }

    /// The cache's counters.
    pub closed spec fn stats_spec(self) -> StorageStats {
        self.stats
    }

    /// The cache's latencies.
    pub closed spec fn latency_spec(self) -> StorageLatency {
        self.latency
    }

    /// The layer number (1 for L1).
    pub closed spec fn layer_spec(self) -> usize {
        self.layer
    }

    /// Total size in bytes.
    pub closed spec fn size_spec(self) -> usize {
        self.size
    }

    /// Lines per set.
    pub closed spec fn associativity_spec(self) -> usize {
        self.associativity
    }

    /// Number of sets.
    pub closed spec fn set_num_spec(self) -> usize {
        self.set_num
    }

    /// Bytes per line.
    pub closed spec fn block_size_spec(self) -> usize {
        self.block_size
    }

    /// The level below the cache.
    pub closed spec fn lower_spec(self) -> Storage {
        self.lower
    }

    /// What a write hit does.
    pub closed spec fn write_hit_policy_spec(self) -> WriteHitPolicy {
        self.write_hit_policy
    }

    /// What a write miss does.
    pub closed spec fn write_miss_policy_spec(self) -> WriteMissPolicy {
        self.write_miss_policy
    }

    /// The counters after this cache served a request for `addr` (a read when `read`)
    /// that returned `r`: one more access; a miss when `r` is not a hit; the request's time
    /// unless a prefetch stream served it; a fetch (and a replacement, if the set was
    /// full) when the block is brought into the set; the prefetched lines of a miss; and
    /// a prefetch hit when a stream served it.
    pub open spec fn stats_after(self, addr: u64, read: bool, r: (bool, usize)) -> StorageStats {
        let o = self.stats_spec();
        let by_stream = !self.line_hit(addr) && self.stream_hit(addr);
        let fills = !r.0 && (read || self.write_miss_policy_spec()
            == WriteMissPolicy::WriteAllocate);
        StorageStats {
            access_counter: (o.access_counter + 1) as usize,
            miss_num: (o.miss_num + if r.0 { 0int } else { 1 }) as usize,
            access_time: (o.access_time + if by_stream { 0 } else { r.1 as int }) as usize,
            replace_num: (o.replace_num + if fills && self.set_full(addr) { 1int } else { 0 }) as usize,
            fetch_num: (o.fetch_num + if fills { 1int } else { 0 }) as usize,
            prefetch_num: (o.prefetch_num + if !r.0 { self.prefetch_depth() as int } else { 0 }) as usize,
            prefetch_hit: (o.prefetch_hit + if by_stream { 1int } else { 0 }) as usize,
        }
    }

    /// The request clock (one tick per request served); a line's timestamp is the clock at
    /// its last use.
    pub closed spec fn clock_spec(self) -> u64 {
        self.clock
    }

    /// The number of byte-offset bits of an address.
    pub closed spec fn offset_bits_spec(self) -> u32 {
        self.byte_offset_bits
    }

    /// The set `addr` maps to.
    pub closed spec fn set_for(self, addr: u64) -> CacheSet {
        self.inner.sets()[self.set_index_of(addr) as int]
    }

    /// The missed addresses recorded for stride detection, each with the stride found for it.
    pub closed spec fn history_spec(self) -> Seq<(u64, i64)> {
        self.prefetch_manager.access_history@
    }

    /// The `i`-th block a miss at `addr` prefetches along `stride`: the block holding
    /// `addr + i * stride` (computed modulo 2^64).
    pub open spec fn prefetch_addr(self, addr: u64, i: int, stride: i64) -> u64 {
        (((addr as i64).wrapping_add((i as i64).wrapping_mul(stride)) as u64)
            >> self.offset_bits_spec()) << self.offset_bits_spec()
    }

    /// The requests a prefetching miss at `addr` sends below: one block read for each of
    /// the stream depth's steps along the stride detected for `addr`.
    pub open spec fn prefetch_requests(self, addr: u64) -> Seq<(u64, usize, bool)> {
        let stride = detected_stride(self.history_spec(), addr);
        Seq::new(
            self.stream_depth_spec() as nat,
            |i: int| (self.prefetch_addr(addr, i, stride), self.block_size_spec(), true),
        )
    }

    /// The time every request to this cache costs by itself.
    pub open spec fn base_time(self) -> int {
        self.latency_spec().bus_latency + self.latency_spec().hit_latency
    }

    /// The address of the block that holds `addr`.
    pub open spec fn block_addr(self, addr: u64) -> u64 {
        (addr >> self.offset_bits_spec()) << self.offset_bits_spec()
    }

    /// The address a dirty line at way `way` with tag `tag` is written back to.
    pub open spec fn writeback_addr(self, tag: u64, way: int) -> u64 {
        tag | ((way as u64) << self.offset_bits_spec())
    }

    /// The line `l` after a use by a request at clock `t`: referenced, stamped `t`, and dirty
    /// after a write.
    pub open spec fn touched(l: CacheLine, read: bool, t: u64) -> CacheLine {
        CacheLine { timestamp: t, used: true, dirty: l.dirty || !read, ..l }
    }

    /// The line `l` after the block of `addr` was put into it at clock `t`: valid, dirty for
    /// a write, carrying the block's tag and set, referenced and stamped `t`.
    pub open spec fn installed(self, l: CacheLine, addr: u64, read: bool, t: u64) -> CacheLine {
        CacheLine {
            valid: true,
            dirty: !read,
            tag: self.tag_of(addr),
            set: self.set_index_of(addr),
            timestamp: t,
            used: true,
            ..l
        }
    }

    /// A hit on a line of the set of `addr`: the set stays as it was but for that line, now
    /// `touched`; the streams stay; a read or a write-back write sends nothing below and
    /// takes the base time, a write-through write sends that write below and adds its time.
    pub open spec fn hit_served(
        self,
        after: Cache,
        addr: u64,
        bytes: usize,
        read: bool,
        r: (bool, usize),
    ) -> bool {
        let d = self.lower_spec().depth();
        let s0 = self.set_for(addr);
        let s1 = after.set_for(addr);
        let t = after.clock_spec();
        &&& exists|i: int|
            0 <= i < s0.lines().len() && (#[trigger] s0.lines()[i]).valid && s0.lines()[i].tag
                == self.tag_of(addr) && s1.lines() == s0.lines().update(
                i,
                Cache::touched(s0.lines()[i], read, t),
            )
        &&& s1.tree() == s0.tree() && s1.hand() == s0.hand()
        &&& after.streams_spec() == self.streams_spec()
        &&& if read || self.write_hit_policy_spec() == WriteHitPolicy::WriteBack {
            after.lower_spec() == self.lower_spec() && r.1 == self.base_time()
        } else {
            exists|w: (bool, usize)|
                self.lower_spec().answered(after.lower_spec(), addr, bytes, false, w) && r.1
                    == self.base_time() + w.1
        }
    }

    /// A hit in a prefetch stream: no set, stream or lower level changes, and the request
    /// takes the base time.
    pub open spec fn stream_served(
        self,
        after: Cache,
        addr: u64,
        bytes: usize,
        read: bool,
        r: (bool, usize),
    ) -> bool {
        let d = self.lower_spec().depth();
        let s0 = self.set_for(addr);
        let s1 = after.set_for(addr);
        let t = after.clock_spec();
        &&& s1 == s0
        &&& after.streams_spec() == self.streams_spec()
        &&& after.lower_spec() == self.lower_spec()
        &&& r.1 == self.base_time()
    }

    /// A miss: the lower level first answers, in order, the prefetch requests
    /// (`prefetch_requests`) if prefetching is on, and reaches a state `mid`; then a write
    /// miss without write-allocate sends the write below, adds its time and leaves the set;
    /// any other miss reads the block from `mid`, chooses the first invalid line or (set
    /// full) a victim under the policy, writes a dirty victim back under write-back, and
    /// installs the block in the chosen line; the time is the base plus what those
    /// requests took.
    pub open spec fn miss_served(
        self,
        after: Cache,
        addr: u64,
        bytes: usize,
        read: bool,
        r: (bool, usize),
    ) -> bool {
        exists|mid: Storage|
            #![trigger mid.depth()]
            mid.depth() == self.lower_spec().depth() && self.prefetched_to(mid, addr) && if !read
                && self.write_miss_policy_spec() == WriteMissPolicy::NonWriteAllocate {
                self.write_around(after, mid, addr, bytes, r)
            } else {
                self.fill_served(after, mid, addr, read, r)
            }
    }

    /// `mid` is the lower level once it answered, in order, the prefetch requests of a miss
    /// at `addr` (the lower level itself when prefetching is off).
    pub open spec fn prefetched_to(self, mid: Storage, addr: u64) -> bool {
        if self.prefetch_spec() {
            exists|states: Seq<Storage>|
                #[trigger] answered_in_order(states, self.prefetch_requests(addr)) && states[0]
                    == self.lower_spec() && states.last() == mid
        } else {
            mid == self.lower_spec()
        }
    }

    /// A write miss without write-allocate, the lower level being at `mid`: the set stays,
    /// the write goes below, and its time is added to the base.
    pub open spec fn write_around(self, after: Cache, mid: Storage, addr: u64, bytes: usize, r: (bool, usize)) -> bool {
        &&& after.set_for(addr) == self.set_for(addr)
        &&& exists|w: (bool, usize)|
            mid.answered(after.lower_spec(), addr, bytes, false, w) && r.1 == self.base_time() + w.1
    }

    /// A miss that fills a line, the lower level being at `mid`: the block is read from
    /// `mid`, the first invalid line or (set full) the policy's victim is chosen, a dirty
    /// victim is written back under write-back, and the block is installed in the chosen
    /// line; the time is the base plus what those requests took.
    pub open spec fn fill_served(self, after: Cache, mid: Storage, addr: u64, read: bool, r: (bool, usize)) -> bool {
        let d = self.lower_spec().depth();
        let s0 = self.set_for(addr);
        let s1 = after.set_for(addr);
        let t = after.clock_spec();
        exists|e: CacheSet, v: int, mid2: Storage, f: (bool, usize)|
            #![trigger mid.answered(mid2, self.block_addr(addr), self.block_size_spec(), true, f), e.lines()[v]]
            {
                &&& (if self.set_full(addr) {
                    s0.evicts(e, self.replacement_policy_spec(), v, t)
                } else {
                    e == s0 && 0 <= v < s0.lines().len() && !s0.lines()[v].valid
                        && forall|j: int| 0 <= j < v ==> (#[trigger] s0.lines()[j]).valid
                })
                &&& s1.lines() == e.lines().update(
                    v,
                    self.installed(e.lines()[v], addr, read, t),
                )
                &&& s1.tree() == e.tree() && s1.hand() == e.hand()
                &&& mid2.depth() == d
                &&& mid.answered(mid2, self.block_addr(addr), self.block_size_spec(), true, f)
                &&& if self.set_full(addr) && s0.lines()[v].dirty
                    && self.write_hit_policy_spec() == WriteHitPolicy::WriteBack {
                    exists|w: (bool, usize)|
                        mid2.answered(
                            after.lower_spec(),
                            self.writeback_addr(s0.lines()[v].tag, v),
                            1usize << self.offset_bits_spec(),
                            false,
                            w,
                        ) && r.1 == self.base_time() + f.1 + w.1
                } else {
                    after.lower_spec() == mid2 && r.1 == self.base_time() + f.1
                }
            }
    }

    /// What a miss at `addr` leaves in the prefetcher when prefetching is on, with `s` the
    /// stride detected for `addr`: the history records `(addr, s)`; the stream table is the
    /// old one, with the stalest stream dropped first if the table was full and had no
    /// stream for `s`, and with the stream for `s` replaced by one stamped with the clock
    /// whose buffer holds exactly the `stream_buffer_depth` blocks fetched ahead, in order.
    pub open spec fn prefetch_recorded(self, after: Cache, addr: u64) -> bool {
        let s = detected_stride(self.history_spec(), addr);
        let old_streams = self.streams_spec();
        let depth = self.stream_depth_spec();
        let t = after.clock_spec();
        &&& after.history_spec() == self.history_spec().push((addr, s))
        &&& exists|m1: Map<i64, PrefetchStream>, st: PrefetchStream|
            #[trigger] m1.insert(s, st) == after.streams_spec() && {
                &&& (if old_streams.contains_key(s) {
                    m1 == old_streams
                } else if old_streams.len() >= self.max_streams_spec() {
                    oldest_stream_evicted(old_streams, m1)
                } else {
                    m1 == old_streams
                })
                &&& st.stride == (if old_streams.contains_key(s) { old_streams[s].stride } else { s })
                &&& st.depth == (if old_streams.contains_key(s) { old_streams[s].depth } else { depth })
                &&& st.timestamp == t
                &&& st.buffer@.len() == depth
                &&& forall|i: int|
                    0 <= i < depth ==> self.is_prefetched_line(#[trigger] st.buffer@[i], addr, i, s, t)
            }
    }

    /// `l` is the line prefetched for the `i`-th block along `stride` from `addr` at clock
    /// `t`: it carries that block's tag and set index, is stamped `t`, and is otherwise a
    /// blank line.
    pub open spec fn is_prefetched_line(self, l: CacheLine, addr: u64, i: int, stride: i64, t: u64) -> bool {
        let pa = self.prefetch_addr(addr, i, stride);
        &&& l.tag == self.tag_of(pa)
        &&& l.set == self.set_index_of(pa)
        &&& l.timestamp == t
        &&& !l.valid
        &&& !l.dirty
        &&& !l.used
        &&& l.data@ == Seq::new(self.block_size_spec() as nat, |k: int| 0u8)
    }

    /// `after` is this cache once it served a request of `bytes` bytes at `addr` (a read when
    /// `read`) that returned `r` (each request it sent below is described by what the lower
    /// level's own state shows of it, `Storage::answered`): the hit flag is `would_hit`, the
    /// counters are `stats_after`, the latencies stay, every other set stays as it was, and
    /// the request was a line hit (`hit_served`), a stream hit (`stream_served`) or a miss
    /// (`miss_served`).  Only a prefetching miss changes the prefetcher
    /// (`prefetch_recorded`); otherwise the stride history and the streams stay.
    pub open spec fn cache_served(
        self,
        after: Cache,
        addr: u64,
        bytes: usize,
        read: bool,
        r: (bool, usize),
    ) -> bool {
        &&& r.0 == self.would_hit(addr)
        &&& after.stats_spec() == self.stats_after(addr, read, r)
        &&& after.latency_spec() == self.latency_spec()
        &&& after.offset_bits_spec() == self.offset_bits_spec()
        &&& after.prefetch_spec() == self.prefetch_spec()
        &&& forall|a: u64|
            self.set_index_of(a) != self.set_index_of(addr) ==> #[trigger] after.lines_for(a)
                == self.lines_for(a)
        &&& if self.line_hit(addr) {
            self.hit_served(after, addr, bytes, read, r)
        } else if self.stream_hit(addr) {
            self.stream_served(after, addr, bytes, read, r)
        } else {
            self.miss_served(after, addr, bytes, read, r)
        }
        &&& if !self.line_hit(addr) && !self.stream_hit(addr) && self.prefetch_spec() {
            self.prefetch_recorded(after, addr)
        } else {
            after.history_spec() == self.history_spec() && after.streams_spec() == self.streams_spec()
        }
    }

    /// Gathers the parts of `cache_served` (used where they are established one by one).
    proof fn lemma_cache_served_intro(
        self,
        after: Cache,
        addr: u64,
        bytes: usize,
        read: bool,
        r: (bool, usize),
    )
        requires
            r.0 == self.would_hit(addr),
            after.stats_spec() == self.stats_after(addr, read, r),
            after.latency_spec() == self.latency_spec(),
            after.offset_bits_spec() == self.offset_bits_spec(),
            after.prefetch_spec() == self.prefetch_spec(),
            forall|a: u64|
                self.set_index_of(a) != self.set_index_of(addr) ==> #[trigger] after.lines_for(a)
                    == self.lines_for(a),
            self.line_hit(addr) ==> self.hit_served(after, addr, bytes, read, r),
            !self.line_hit(addr) && self.stream_hit(addr) ==> self.stream_served(after, addr, bytes, read, r),
            !self.line_hit(addr) && !self.stream_hit(addr) ==> self.miss_served(after, addr, bytes, read, r),
            !self.line_hit(addr) && !self.stream_hit(addr) && self.prefetch_spec() ==> self.prefetch_recorded(after, addr),
            !(!self.line_hit(addr) && !self.stream_hit(addr) && self.prefetch_spec()) ==> after.history_spec()
                == self.history_spec() && after.streams_spec() == self.streams_spec(),
        ensures
            self.cache_served(after, addr, bytes, read, r),
    {
    }

    /// How many lines a miss prefetches: the stream depth with prefetching on, else none.
    pub closed spec fn prefetch_depth(self) -> nat {
        if self.prefetch {
            self.prefetch_manager.stream_buffer_depth as nat
        } else {
            0
        }
    }

    /// Serves a request of `bytes` bytes at `addr`: a hit updates the line's recency (and,
    /// for a write, marks it dirty, writing through to the lower level under
    /// write-through); with prefetching on, a miss first looks in the prefetch streams and
    /// otherwise prefetches along the detected stride; a read miss, or a write miss under
    /// write-allocate, fetches the block into the set (evicting a line if the set is
    /// full); a write miss under no-write-allocate goes to the lower level.  Returns
    /// `(hit, time)`.
    #[verifier::rlimit(60)]
    pub fn handle_request(&mut self, addr: u64, bytes: usize, read: bool) -> (r: (bool, usize))
        requires
            old(self).wf(),
            old(self).headroom(1),
        ensures
            final(self).wf(),
            final(self).same_layout(*old(self)),
            final(self).lower_spec().depth() == old(self).lower_spec().depth(),
            final(self).lower_spec().max_time() == old(self).lower_spec().max_time(),
            final(self).lower_spec().latency_spec() == old(self).lower_spec().latency_spec(),
            final(self).max_time() == old(self).max_time(),
            forall|k: nat| #[trigger] final(self).headroom(k) <== old(self).headroom(k + 1),
            r.0 == old(self).would_hit(addr),
            read ==> final(self).would_hit(addr),
            !read && (old(self).line_hit(addr) || (!r.0 && old(self).write_miss_policy_spec()
                == WriteMissPolicy::WriteAllocate)) ==> final(self).dirty_hit(addr),
            !r.0 && (read || old(self).write_miss_policy_spec() == WriteMissPolicy::WriteAllocate)
                ==> final(self).line_hit(addr),
            read && !r.0 ==> !final(self).dirty_hit(addr),
            old(self).latency_spec().bus_latency + old(self).latency_spec().hit_latency <= r.1 <= old(
                self,
            ).max_time(),
            (old(self).line_hit(addr) && (read || old(self).write_hit_policy_spec()
                == WriteHitPolicy::WriteBack)) || (!old(self).line_hit(addr) && old(self).stream_hit(
                addr,
            )) ==> {
                &&& r.1 == old(self).latency_spec().bus_latency + old(self).latency_spec().hit_latency
                &&& final(self).lower_spec() == old(self).lower_spec()
            },
            old(self).line_hit(addr) && !read && old(self).write_hit_policy_spec()
                == WriteHitPolicy::WriteThrough ==> final(self).lower_spec().stats_spec().access_counter
                == old(self).lower_spec().stats_spec().access_counter + 1,
            final(self).stats_spec() == old(self).stats_after(addr, read, r),
            old(self).cache_served(*final(self), addr, bytes, read, r),
            forall|a: u64|
                old(self).set_index_of(a) != old(self).set_index_of(addr)
                    ==> #[trigger] final(self).lines_for(a) == old(self).lines_for(a),
            !old(self).prefetch_spec() && old(self).lower_spec().charges_reported_time() ==> r.1
                == old(self).latency_spec().bus_latency + old(self).latency_spec().hit_latency
                + final(self).lower_spec().stats_spec().access_time - old(
                self,
            ).lower_spec().stats_spec().access_time,
            !old(self).prefetch_spec() && !r.0 && !read && old(self).write_miss_policy_spec()
                == WriteMissPolicy::NonWriteAllocate ==> final(self).lower_spec().stats_spec().access_counter
                == old(self).lower_spec().stats_spec().access_counter + 1,
            !old(self).prefetch_spec() && !r.0 && (read || old(self).write_miss_policy_spec()
                == WriteMissPolicy::WriteAllocate) ==> {
                &&& old(self).lower_spec().stats_spec().access_counter + 1 <= final(self).lower_spec().stats_spec().access_counter
                    <= old(self).lower_spec().stats_spec().access_counter + 2
                &&& !old(self).set_full(addr) || old(self).write_hit_policy_spec() == WriteHitPolicy::WriteThrough
                    ==> final(self).lower_spec().stats_spec().access_counter
                    == old(self).lower_spec().stats_spec().access_counter + 1
            },
        decreases old(self).lower_spec().depth() + 1, 2int,
    {
        let ghost o = *self;
        let ghost l0 = self.lower;
        let calls = if self.prefetch { self.prefetch_manager.stream_buffer_depth + 2 } else { 2 };
        proof {
            lemma_headroom_monotone(l0, o.lower_calls(), o.lower_calls());
            assert(o.max_time() == self.latency.bus_latency + self.latency.hit_latency + 2 * l0.max_time());
        }
        self.clock = self.clock + 1;
        let now = self.clock;
        let mut time: usize = 0;
        self.stats.access_counter = self.stats.access_counter + 1;
        time = time + self.latency.bus_latency;
        time = time + self.latency.hit_latency;
        let set_index = addr & self.set_index_mask >> self.byte_offset_bits;
        let tag = addr & self.tag_mask;
        proof {
            lemma_set_index_in_range(addr, self.byte_offset_bits, self.set_index_bits);
        }
        let si = set_index as usize;
        let found = find_line(&self.inner.0[si].cache_lines, tag);
        proof {
            assert(o.lines_for(addr) == self.inner.0@[si as int].cache_lines@);
            if o.line_hit(addr) {
                let i = choose|i: int|
                    0 <= i < o.lines_for(addr).len() && (#[trigger] o.lines_for(addr)[i]).valid
                        && o.lines_for(addr)[i].tag == o.tag_of(addr);
                assert(self.inner.0@[si as int].cache_lines@[i].valid && self.inner.0@[si as int].cache_lines@[i].tag == tag);
            }
            if let Some(i) = found {
                assert(o.lines_for(addr)[i as int].valid);
            }
            assert(found is Some <==> o.line_hit(addr));
        }
        let ghost mut pf_states: Seq<Storage> = seq![self.lower];
        if self.prefetch && found.is_none() {
            if self.prefetch_manager.check_hit(tag, set_index).is_some() {
                self.stats.prefetch_hit = self.stats.prefetch_hit + 1;
                proof {
                    assert(self.stream_hit(addr));
                    self.lemma_sets_wf_later_clock(o.clock);
                    lemma_headroom_after_request(o, *self, 0);
                    assert(self.set_for(addr) == o.set_for(addr));
                    assert forall|a: u64| o.set_index_of(a) != o.set_index_of(addr) implies #[trigger] self.lines_for(a)
                        == o.lines_for(a) by {}
                }
                return (true, time);
            }
            proof {
                self.lemma_sets_wf_later_clock(o.clock);
                lemma_headroom_monotone(l0, o.lower_calls(), o.prefetch_manager.stream_buffer_depth as nat);
            }
            let ghost c_pf = *self;
            self.prefetch_on_miss(addr, now);
            proof {
                assert(c_pf.prefetch_requests(addr) == o.prefetch_requests(addr));
                pf_states = choose|states: Seq<Storage>|
                    #[trigger] answered_in_order(states, c_pf.prefetch_requests(addr)) && states[0]
                        == c_pf.lower && states.last() == self.lower;
            }
        }
        let ghost used_before: nat = if self.prefetch && found.is_none() {
            o.prefetch_manager.stream_buffer_depth as nat
        } else {
            0
        };
        let ghost l1 = self.lower;
        let ghost c1 = *self;
        proof {
            if !(self.prefetch && found.is_none()) {
                self.lemma_sets_wf_later_clock(o.clock);
                assert(l1 == l0);
            }
            assert forall|m: nat| l0.headroom(m + used_before) implies #[trigger] l1.headroom(m) by {
                if used_before == 0 && l0.headroom(m) {
                    assert(l1 == l0);
                }
            }
            assert(self.inner == o.inner);
            lemma_headroom_monotone(l0, o.lower_calls(), used_before + 2);
            assert(l1.headroom(2));
            lemma_headroom_monotone(l1, 2, 1);
        }
        let ghost mut used_total: nat = used_before;
        let ghost mut c_mid = *self;
        let ghost mut cb = *self;
        let ghost mut ca = *self;
        let ghost mut fill_time: usize = 0;
        let res = match (read, found) {
            (true, Some(i)) => {
                let _ = self.serve_hit(si, i, addr, bytes, true, now);
                proof {
                    c_mid = *self;
                }
                (true, time)
            },
            (false, Some(i)) => {
                let wt_time = self.serve_hit(si, i, addr, bytes, false, now);
                time = time + wt_time;
                proof {
                    c_mid = *self;
                }
                proof {
                    if self.write_hit_policy == WriteHitPolicy::WriteThrough {
                        used_total = used_before + 1;
                    }
                    assert forall|m: nat| l0.headroom(m + used_total) implies #[trigger] self.lower.headroom(m) by {
                        if l0.headroom(m + used_total) {
                            if used_total == used_before + 1 {
                                assert(l1.headroom(m + 1));
                            } else {
                                assert(self.lower == l1);
                            }
                        }
                    }
                }
                (true, time)
            },
            (true, None) => {
                self.stats.miss_num = self.stats.miss_num + 1;
                self.stats.fetch_num = self.stats.fetch_num + 1;
                let ghost c_pre = *self;
                proof {
                    Self::lemma_lines_depend_on_sets(o, c_pre, addr);
                }
                let (get_time, evicted) = self.install_block(si, addr, set_index, tag, false, now);
                proof {
                    cb = c_pre;
                    ca = *self;
                    fill_time = get_time;
                }
                proof {
                    Self::lemma_lines_depend_on_sets(c1, c_pre, addr);
                }
                time = time + get_time;
                proof {
                    c_mid = *self;
                }
                self.stats.replace_num = self.stats.replace_num + if evicted { 1 } else { 0 };
                proof {
                    used_total = used_before + 2;
                    assert forall|m: nat| l0.headroom(m + used_total) implies #[trigger] self.lower.headroom(m) by {
                        if l0.headroom(m + used_total) {
                            assert(l1.headroom(m + 2));
                        }
                    }
                }
                (false, time)
            },
            (false, None) => {
                self.stats.miss_num = self.stats.miss_num + 1;
                match self.write_miss_policy {
                    WriteMissPolicy::NonWriteAllocate => {
                        let (wt_hit, wt_time) = self.lower.handle_request(addr, bytes, false);
                        time = time + wt_time;
                        proof {
                            assert(l1.answered(self.lower, addr, bytes, false, (wt_hit, wt_time)));
                            used_total = used_before + 1;
                            assert forall|m: nat| l0.headroom(m + used_total) implies #[trigger] self.lower.headroom(m) by {
                                if l0.headroom(m + used_total) {
                                    assert(l1.headroom(m + 1));
                                }
                            }
                        }
                    },
                    WriteMissPolicy::WriteAllocate => {
                        self.stats.fetch_num = self.stats.fetch_num + 1;
                        let ghost c_pre = *self;
                        proof {
                            Self::lemma_lines_depend_on_sets(o, c_pre, addr);
                        }
                        let (get_time, evicted) = self.install_block(si, addr, set_index, tag, true, now);
                        proof {
                            cb = c_pre;
                            ca = *self;
                            fill_time = get_time;
                        }
                        proof {
                            Self::lemma_lines_depend_on_sets(c1, c_pre, addr);
                        }
                        time = time + get_time;
                        proof {
                            c_mid = *self;
                        }
                        self.stats.replace_num = self.stats.replace_num + if evicted { 1 } else { 0 };
                        proof {
                            used_total = used_before + 2;
                            assert forall|m: nat| l0.headroom(m + used_total) implies #[trigger] self.lower.headroom(m) by {
                                if l0.headroom(m + used_total) {
                                    assert(l1.headroom(m + 2));
                                }
                            }
                        }
                    },
                    WriteMissPolicy::Unset => {},
                }
                (false, time)
            },
        };
        self.stats.access_time = self.stats.access_time + res.1;
        proof {
            assert forall|m: nat| l0.headroom(m + used_total) implies #[trigger] self.lower.headroom(m) by {
                if l0.headroom(m + used_total) && used_total == used_before {
                    assert(l1.headroom(m));
                }
            }
            lemma_headroom_after_request(o, *self, used_total);
            Self::lemma_hits_depend_on_sets(c_mid, *self, addr);
            Self::lemma_lines_depend_on_sets(o, c1, addr);
            assert forall|a: u64| o.set_index_of(a) != o.set_index_of(addr) implies #[trigger] self.lines_for(a)
                == o.lines_for(a) by {
                lemma_set_index_in_range(a, o.byte_offset_bits, o.set_index_bits);
                assert(self.inner.sets()[o.set_index_of(a) as int] == o.inner.sets()[o.set_index_of(a) as int]);
            }
            assert(o.set_for(addr) == o.inner.sets()[si as int]);
            assert(self.set_for(addr) == self.inner.sets()[si as int]);
            assert(o.block_addr(addr) == self.block_addr(addr));
            let s0 = o.set_for(addr);
            let s1 = self.set_for(addr);
            assert(res.0 == o.would_hit(addr));
            assert(self.stats_spec() == o.stats_after(addr, read, res));
            assert(self.latency_spec() == o.latency_spec());
            assert(self.offset_bits_spec() == o.offset_bits_spec());
            if let Some(i) = found {
                assert(s0.lines()[i as int].valid && s0.lines()[i as int].tag == o.tag_of(addr));
                assert(s1.lines() == s0.lines().update(i as int, Cache::touched(s0.lines()[i as int], read, self.clock)));
                assert(s1.tree() == s0.tree() && s1.hand() == s0.hand());
                assert(self.streams_spec() == o.streams_spec());
                if read || o.write_hit_policy == WriteHitPolicy::WriteBack {
                    assert(self.lower_spec() == o.lower_spec());
                    assert(res.1 == o.base_time());
                } else {
                    assert(exists|w: (bool, usize)|
                        o.lower_spec().answered(self.lower_spec(), addr, bytes, false, w) && res.1
                            == o.base_time() + w.1);
                }
                assert(o.hit_served(*self, addr, bytes, read, res));

            } else {
                assert(!o.stream_hit(addr));
                assert(l1.depth() == o.lower_spec().depth());
                if !read && o.write_miss_policy == WriteMissPolicy::NonWriteAllocate {
                    assert(s1 == s0);
                    assert(exists|w: (bool, usize)|
                        l1.answered(self.lower_spec(), addr, bytes, false, w) && res.1 == o.base_time() + w.1);
                    assert(o.write_around(*self, l1, addr, bytes, res));
                } else {
                    let b = cb.byte_offset_bits;
                    let (e, v, mid2, f) = choose|e: CacheSet, v: int, mid2: Storage, f: (bool, usize)|
                        #![trigger cb.lower.answered(mid2, cb.block_addr(addr), cb.block_size, true, f), e.lines()[v]]
                        {
                            let p0 = cb.inner.sets()[si as int];
                            let p1 = ca.inner.sets()[si as int];
                            &&& (if cb.set_full(addr) {
                                p0.evicts(e, cb.replacement_policy, v, now)
                            } else {
                                e == p0 && 0 <= v < p0.lines().len() && !p0.lines()[v].valid
                                    && forall|j: int| 0 <= j < v ==> (#[trigger] p0.lines()[j]).valid
                            })
                            &&& p1.lines() == e.lines().update(v, cb.installed(e.lines()[v], addr, read, now))
                            &&& p1.tree() == e.tree() && p1.hand() == e.hand()
                            &&& mid2.depth() == cb.lower.depth()
                            &&& cb.lower.answered(mid2, cb.block_addr(addr), cb.block_size, true, f)
                            &&& if cb.set_full(addr) && p0.lines()[v].dirty && cb.write_hit_policy
                                == WriteHitPolicy::WriteBack {
                                exists|w: (bool, usize)|
                                    mid2.answered(
                                        ca.lower,
                                        cb.writeback_addr(p0.lines()[v].tag, v),
                                        1usize << b,
                                        false,
                                        w,
                                    ) && fill_time == f.1 + w.1
                            } else {
                                ca.lower == mid2 && fill_time == f.1
                            }
                        };
                    assert(cb.inner.sets()[si as int] == s0);
                    assert(ca.inner.sets()[si as int] == s1);
                    assert(cb.set_full(addr) == o.set_full(addr));
                    assert(cb.installed(e.lines()[v], addr, read, now) == o.installed(e.lines()[v], addr, read, self.clock));
                    assert(cb.block_addr(addr) == o.block_addr(addr));
                    assert(cb.lower == l1);
                    assert(ca.lower == self.lower);
                    assert(l1.answered(mid2, o.block_addr(addr), o.block_size_spec(), true, f));
                    assert(e.lines()[v] == e.lines()[v]);
                    assert(res.1 == o.base_time() + fill_time);
                    assert(o.fill_served(*self, l1, addr, read, res));
                }
            }
            assert(forall|a: u64|
                o.set_index_of(a) != o.set_index_of(addr) ==> #[trigger] self.lines_for(a)
                    == o.lines_for(a));
            if !o.line_hit(addr) && !o.stream_hit(addr) {
                assert(l1.depth() == o.lower_spec().depth());
                assert(!o.prefetch_spec() ==> l1 == o.lower_spec());
                if o.prefetch_spec() {
                    assert(answered_in_order(pf_states, o.prefetch_requests(addr)) && pf_states[0]
                        == o.lower_spec() && pf_states.last() == l1);
                }
                assert(o.prefetched_to(l1, addr));
                assert(o.miss_served(*self, addr, bytes, read, res));
            }
            o.lemma_cache_served_intro(*self, addr, bytes, read, res);
        }
        res
    }

    /// Whether a request hits depends only on the sets, the address layout and the
    /// prefetch streams.
    proof fn lemma_hits_depend_on_sets(a: Cache, b: Cache, addr: u64)
        requires
            a.inner == b.inner,
            a.set_index_mask == b.set_index_mask,
            a.byte_offset_bits == b.byte_offset_bits,
            a.tag_mask == b.tag_mask,
            a.prefetch == b.prefetch,
            a.prefetch_manager == b.prefetch_manager,
        ensures
            a.line_hit(addr) == b.line_hit(addr),
            a.dirty_hit(addr) == b.dirty_hit(addr),
            a.stream_hit(addr) == b.stream_hit(addr),
            a.would_hit(addr) == b.would_hit(addr),
            a.set_full(addr) == b.set_full(addr),
    {
        Self::lemma_lines_depend_on_sets(a, b, addr);
    }

    /// What the set an address maps to holds depends only on the sets and the address
    /// layout.
    proof fn lemma_lines_depend_on_sets(a: Cache, b: Cache, addr: u64)
        requires
            a.inner == b.inner,
            a.set_index_mask == b.set_index_mask,
            a.byte_offset_bits == b.byte_offset_bits,
            a.tag_mask == b.tag_mask,
        ensures
            a.lines_for(addr) == b.lines_for(addr),
            a.line_hit(addr) == b.line_hit(addr),
            a.dirty_hit(addr) == b.dirty_hit(addr),
            a.set_full(addr) == b.set_full(addr),
    {
        assert(a.lines_for(addr) == b.lines_for(addr));
    }

    /// With a later clock, every set still has its uses no later than the clock.
    proof fn lemma_sets_wf_later_clock(self, earlier: u64)
        requires
            earlier <= self.clock,
            forall|i: int|
                0 <= i < self.set_num ==> (#[trigger] self.inner.sets()[i]).wf(
                    self.associativity as nat,
                    earlier,
                ),
        ensures
            forall|i: int|
                0 <= i < self.set_num ==> (#[trigger] self.inner.sets()[i]).wf(
                    self.associativity as nat,
                    self.clock,
                ),
    {
        assert forall|i: int| 0 <= i < self.set_num implies (#[trigger] self.inner.sets()[i]).wf(
            self.associativity as nat,
            self.clock,
        ) by {
            let set = self.inner.sets()[i];
            assert(set.wf(self.associativity as nat, earlier));
        }
    }
}


/// A request that changed each counter of a cache by at most what one request may, and
/// consumed at most `used` of the requests its lower level had room for, leaves room for
/// one request fewer than before.
proof fn lemma_headroom_after_request(o: Cache, f: Cache, used: nat)
    requires
        f.same_layout(o),
        f.lower.max_time() == o.lower.max_time(),
        used <= o.lower_calls(),
        forall|m: nat| #[trigger] f.lower.headroom(m) <== o.lower.headroom(m + used),
        f.stats.access_counter <= o.stats.access_counter + 1,
        f.stats.miss_num <= o.stats.miss_num + 1,
        f.stats.fetch_num <= o.stats.fetch_num + 1,
        f.stats.replace_num <= o.stats.replace_num + 1,
        f.stats.prefetch_hit <= o.stats.prefetch_hit + 1,
        f.stats.prefetch_num <= o.stats.prefetch_num + o.prefetch_manager.stream_buffer_depth,
        f.stats.access_time <= o.stats.access_time + o.max_time(),
        f.clock <= o.clock + 1,
    ensures
        f.max_time() == o.max_time(),
        f.lower_calls() == o.lower_calls(),
        forall|k: nat| #[trigger] f.headroom(k) <== o.headroom(k + 1),
{
    assert(f.max_time() == o.max_time());
    let c = o.lower_calls();
    let d = o.prefetch_manager.stream_buffer_depth as int;
    let t = o.max_time() as int;
    assert forall|k: nat| o.headroom(k + 1) implies #[trigger] f.headroom(k) by {
        if o.headroom(k + 1) {
            assert((k + 1) * c >= k * c + used && (k + 1) * d == k * d + d && (k + 1) * t == k * t + t)
                by (nonlinear_arith)
                requires
                    used <= c,
            ;
            lemma_headroom_monotone(o.lower, (k + 1) * c, k * c + used);
            assert(f.lower.headroom(k * c));
        }
    }
}


impl Cache {
    /// Records a use of line `i` of set `si`, which holds the block of `addr`; a write
    /// marks the line dirty and, under write-through, is also sent to the lower level.
    /// Returns the time spent at the lower level.
    fn serve_hit(&mut self, si: usize, i: usize, addr: u64, bytes: usize, read: bool, now: u64) -> (t: usize)
        requires
            old(self).local_wf(),
            old(self).clock == now,
            si < old(self).set_num,
            si == old(self).set_index_of(addr),
            i < old(self).associativity,
            old(self).lines_for(addr)[i as int].valid,
            old(self).lines_for(addr)[i as int].tag == old(self).tag_of(addr),
            old(self).lower.wf(),
            old(self).lower.headroom(1),
        ensures
            final(self).same_layout(*old(self)),
            final(self).clock == old(self).clock,
            final(self).stats == old(self).stats,
            final(self).prefetch_manager == old(self).prefetch_manager,
            final(self).local_wf(),
            final(self).line_hit(addr),
            forall|j: int| 0 <= j < old(self).set_num && j != si ==> #[trigger] final(self).inner.sets()[j] == old(self).inner.sets()[j],
            !read ==> final(self).dirty_hit(addr),
            final(self).lower.wf(),
            final(self).lower.depth() == old(self).lower.depth(),
            final(self).lower.max_time() == old(self).lower.max_time(),
            final(self).lower.latency_spec() == old(self).lower.latency_spec(),
            forall|k: nat| #[trigger] final(self).lower.headroom(k) <== old(self).lower.headroom(k + 1),
            t <= old(self).lower.max_time(),
            read || old(self).write_hit_policy == WriteHitPolicy::WriteBack ==> {
                &&& final(self).lower == old(self).lower
                &&& t == 0
            },
            !read && old(self).write_hit_policy == WriteHitPolicy::WriteThrough
                ==> final(self).lower.stats_spec().access_counter == old(self).lower.stats_spec().access_counter + 1,
            old(self).write_hit_policy == WriteHitPolicy::WriteThrough && !read ==> t as int
                <= old(self).lower.max_time(),
            final(self).lower.charges_reported_time() == old(self).lower.charges_reported_time(),
            old(self).lower.charges_reported_time() ==> final(self).lower.stats_spec().access_time
                == old(self).lower.stats_spec().access_time + t,
            final(self).inner.sets()[si as int].lines() == old(self).inner.sets()[si as int].lines().update(
                i as int,
                Cache::touched(old(self).inner.sets()[si as int].lines()[i as int], read, now),
            ),
            final(self).inner.sets()[si as int].tree() == old(self).inner.sets()[si as int].tree(),
            final(self).inner.sets()[si as int].hand() == old(self).inner.sets()[si as int].hand(),
            !read && old(self).write_hit_policy == WriteHitPolicy::WriteThrough ==> exists|w: (bool, usize)|
                old(self).lower.answered(final(self).lower, addr, bytes, false, w) && t == w.1,
        decreases old(self).lower.depth() + 1, 1int,
    {
        let ghost o = *self;
        self.inner.0[si].cache_lines[i].timestamp = now;
        self.inner.0[si].cache_lines[i].used = true;
        let mut t: usize = 0;
        if !read {
            match self.write_hit_policy {
                WriteHitPolicy::WriteBack => {
                    self.inner.0[si].cache_lines[i].dirty = true;
                },
                WriteHitPolicy::WriteThrough => {
                    self.inner.0[si].cache_lines[i].dirty = true;
                    let ghost l_before = self.lower;
                    let (wt_hit, wt_time) = self.lower.handle_request(addr, bytes, false);
                    t = wt_time;
                    proof {
                        assert(l_before.answered(self.lower, addr, bytes, false, (wt_hit, wt_time)));
                    }
                },
                WriteHitPolicy::Unset => {},
            }
        }
        proof {
            assert(self.lines_for(addr)[i as int].valid);
            if !read {
                assert(self.lines_for(addr)[i as int].dirty);
            }
            if read || o.write_hit_policy == WriteHitPolicy::WriteBack {
                assert forall|k: nat| o.lower.headroom(k + 1) implies #[trigger] self.lower.headroom(k) by {
                    if o.lower.headroom(k + 1) {
                        lemma_headroom_monotone(o.lower, k + 1, k);
                    }
                }
            }
            assert forall|j: int| 0 <= j < self.set_num implies (#[trigger] self.inner.sets()[j]).wf(
                self.associativity as nat,
                self.clock,
            ) by {
                assert(o.inner.sets()[j].wf(o.associativity as nat, o.clock));
                if j != si {
                    assert(self.inner.sets()[j] == o.inner.sets()[j]);
                }
            }
        }
        t
    }

    /// Fetches the block of `addr` into set `si` (see `get_lower_block`) and fills the
    /// chosen line: valid, tagged, used now, and dirty as `dirty` says.  Returns the time
    /// spent at the lower level and whether a line was evicted.
    fn install_block(&mut self, si: usize, addr: u64, set_index: u64, tag: u64, dirty: bool, now: u64) -> (r: (usize, bool))
        requires
            old(self).local_wf(),
            old(self).clock == now,
            si < old(self).set_num,
            si == set_index,
            set_index == old(self).set_index_of(addr),
            tag == old(self).tag_of(addr),
            old(self).lower.wf(),
            old(self).lower.headroom(2),
            !old(self).line_hit(addr),
        ensures
            final(self).same_layout(*old(self)),
            final(self).clock == old(self).clock,
            final(self).stats == old(self).stats,
            final(self).prefetch_manager == old(self).prefetch_manager,
            final(self).local_wf(),
            final(self).line_hit(addr),
            forall|j: int| 0 <= j < old(self).set_num && j != si ==> #[trigger] final(self).inner.sets()[j] == old(self).inner.sets()[j],
            dirty ==> final(self).dirty_hit(addr),
            !dirty ==> !final(self).dirty_hit(addr),
            r.1 == old(self).set_full(addr),
            final(self).lower.wf(),
            final(self).lower.depth() == old(self).lower.depth(),
            final(self).lower.max_time() == old(self).lower.max_time(),
            final(self).lower.latency_spec() == old(self).lower.latency_spec(),
            forall|k: nat| #[trigger] final(self).lower.headroom(k) <== old(self).lower.headroom(k + 2),
            r.0 <= 2 * old(self).lower.max_time(),
            final(self).lower.charges_reported_time() == old(self).lower.charges_reported_time(),
            old(self).lower.charges_reported_time() ==> final(self).lower.stats_spec().access_time
                == old(self).lower.stats_spec().access_time + r.0,
            old(self).lower.stats_spec().access_counter + 1 <= final(self).lower.stats_spec().access_counter
                <= old(self).lower.stats_spec().access_counter + 2,
            !r.1 || old(self).write_hit_policy != WriteHitPolicy::WriteBack ==> final(self).lower.stats_spec().access_counter
                == old(self).lower.stats_spec().access_counter + 1,
            exists|e: CacheSet, v: int, mid2: Storage, f: (bool, usize)|
                #![trigger old(self).lower.answered(mid2, old(self).block_addr(addr), old(self).block_size, true, f), e.lines()[v]]
                {
                    let s0 = old(self).inner.sets()[si as int];
                    let s1 = final(self).inner.sets()[si as int];
                    &&& (if old(self).set_full(addr) {
                        s0.evicts(e, old(self).replacement_policy, v, now)
                    } else {
                        e == s0 && 0 <= v < s0.lines().len() && !s0.lines()[v].valid && forall|j: int|
                            0 <= j < v ==> (#[trigger] s0.lines()[j]).valid
                    })
                    &&& s1.lines() == e.lines().update(
                        v,
                        old(self).installed(e.lines()[v], addr, !dirty, now),
                    )
                    &&& s1.tree() == e.tree() && s1.hand() == e.hand()
                    &&& mid2.depth() == old(self).lower.depth()
                    &&& old(self).lower.answered(
                        mid2,
                        old(self).block_addr(addr),
                        old(self).block_size,
                        true,
                        f,
                    )
                    &&& if old(self).set_full(addr) && s0.lines()[v].dirty && old(self).write_hit_policy
                        == WriteHitPolicy::WriteBack {
                        exists|w: (bool, usize)|
                            mid2.answered(
                                final(self).lower,
                                old(self).writeback_addr(s0.lines()[v].tag, v),
                                1usize << old(self).byte_offset_bits,
                                false,
                                w,
                            ) && r.0 == f.1 + w.1
                    } else {
                        final(self).lower == mid2 && r.0 == f.1
                    }
                },
        decreases old(self).lower.depth() + 1, 1int,
    {
        let ghost o = *self;
        proof {
            assert(o.inner.sets()[si as int].wf(o.associativity as nat, o.clock));
            assert(o.lines_for(addr) == o.inner.sets()[si as int].lines());
        }
        let (idx, get_time, evicted) = Cache::get_lower_block(
            &mut self.inner.0[si],
            addr,
            self.block_size,
            &mut self.lower,
            self.replacement_policy,
            self.write_hit_policy,
            self.byte_offset_bits,
            now,
        );
        let ghost e = self.inner.sets()[si as int];
        let ghost l_after = self.lower;
        self.inner.0[si].cache_lines[idx].valid = true;
        self.inner.0[si].cache_lines[idx].dirty = dirty;
        self.inner.0[si].cache_lines[idx].tag = tag;
        self.inner.0[si].cache_lines[idx].set = set_index;
        self.inner.0[si].cache_lines[idx].timestamp = now;
        self.inner.0[si].cache_lines[idx].used = true;
        proof {
            assert(self.lines_for(addr)[idx as int].valid);
            let s0 = o.inner.sets()[si as int];
            let s2 = self.inner.sets()[si as int];
            assert(s0.tags_ok(si as u64, o.tag_mask));
            let tm = o.tag_mask;
            assert(tag & !tm == 0) by (bit_vector)
                requires
                    tag == addr & tm,
            ;
            assert forall|q: int| 0 <= q < s2.lines().len() && q != idx implies {
                &&& (#[trigger] s2.lines()[q]).valid == s0.lines()[q].valid
                &&& s2.lines()[q].tag == s0.lines()[q].tag
                &&& s2.lines()[q].set == s0.lines()[q].set
            } by {
            }
            assert forall|q: int| 0 <= q < s2.lines().len() && q != idx && (#[trigger] s2.lines()[q]).valid
                implies s2.lines()[q].tag != tag by {
                if s2.lines()[q].tag == tag {
                    assert(o.lines_for(addr)[q].valid && o.lines_for(addr)[q].tag == o.tag_of(addr));
                }
            }
            assert(s2.tags_ok(si as u64, self.tag_mask));
            assert forall|i: int| 0 <= i < self.set_num implies (#[trigger] self.inner.sets()[i]).tags_ok(
                i as u64,
                self.tag_mask,
            ) by {
                if i != si {
                    assert(self.inner.sets()[i] == o.inner.sets()[i]);
                }
            }
            assert(evicted == o.set_full(addr)) by {
                if evicted {
                    assert forall|j: int| 0 <= j < o.lines_for(addr).len() implies (#[trigger] o.lines_for(addr)[j]).valid by {
                        assert(o.inner.sets()[si as int].lines()[j].valid);
                    }
                } else {
                    assert(!o.lines_for(addr)[idx as int].valid);
                }
            }
            assert forall|j: int| 0 <= j < self.set_num implies (#[trigger] self.inner.sets()[j]).wf(
                self.associativity as nat,
                self.clock,
            ) by {
                assert(o.inner.sets()[j].wf(o.associativity as nat, o.clock));
                if j != si {
                    assert(self.inner.sets()[j] == o.inner.sets()[j]);
                } else {
                    let set = self.inner.sets()[j];
                    assert forall|q: int| 0 <= q < self.associativity implies #[trigger] set.cache_lines@[q].timestamp <= self.clock by {
                        if q != idx {
                            assert(o.inner.sets()[j].cache_lines@[q].timestamp <= o.clock);
                        }
                    }
                }
            }
            if !dirty {
                assert forall|q: int|
                    0 <= q < self.lines_for(addr).len() && (#[trigger] self.lines_for(addr)[q]).valid
                        && self.lines_for(addr)[q].tag == self.tag_of(addr) implies !self.lines_for(
                    addr,
                )[q].dirty by {
                    if q != idx {
                        assert(o.lines_for(addr)[q].valid && o.lines_for(addr)[q].tag == o.tag_of(addr));
                    }
                }
            }
        }
        proof {
            let s1 = self.inner.sets()[si as int];
            assert(s1.lines() =~= e.lines().update(
                idx as int,
                o.installed(e.lines()[idx as int], addr, !dirty, now),
            ));
            assert(s1.tree() == e.tree() && s1.hand() == e.hand());
            let s0 = o.inner.sets()[si as int];
            let b = o.byte_offset_bits;
            let (mid, f) = choose|mid: Storage, f: (bool, usize)|
                {
                    &&& mid.depth() == o.lower.depth()
                    &&& o.lower.answered(mid, (addr >> b) << b, o.block_size, true, f)
                    &&& if evicted && s0.lines()[idx as int].dirty && o.write_hit_policy
                        == WriteHitPolicy::WriteBack {
                        exists|w: (bool, usize)|
                            mid.answered(
                                l_after,
                                s0.lines()[idx as int].tag | ((idx as u64) << b),
                                1usize << b,
                                false,
                                w,
                            ) && get_time == f.1 + w.1
                    } else {
                        l_after == mid && get_time == f.1
                    }
                };
            assert(o.block_addr(addr) == (addr >> b) << b);
            assert(o.lower.answered(mid, o.block_addr(addr), o.block_size, true, f));
            assert(self.lower == l_after);
            if evicted && s0.lines()[idx as int].dirty && o.write_hit_policy == WriteHitPolicy::WriteBack {
                let w = choose|w: (bool, usize)|
                    mid.answered(
                        l_after,
                        s0.lines()[idx as int].tag | ((idx as u64) << b),
                        1usize << b,
                        false,
                        w,
                    ) && get_time == f.1 + w.1;
                assert(o.writeback_addr(s0.lines()[idx as int].tag, idx as int) == s0.lines()[idx as int].tag
                    | ((idx as u64) << b));
                assert(mid.answered(
                    self.lower,
                    o.writeback_addr(s0.lines()[idx as int].tag, idx as int),
                    1usize << o.byte_offset_bits,
                    false,
                    w,
                ));
            }
            assert(e.lines()[idx as int] == e.lines()[idx as int]);
        }
        (get_time, evicted)
    }
}


/// The settings a cache is built from.
pub struct CacheOptions {
    pub size: usize,
    pub associativity: usize,
    pub set_num: usize,
    pub block_size: usize,
    pub write_hit_policy: WriteHitPolicy,
    pub write_miss_policy: WriteMissPolicy,
    pub replacement_policy: ReplacementPolicy,
    pub lower: Option<Storage>,
    pub latency: StorageLatency,
    pub stats: StorageStats,
    pub layer: usize,
    pub max_streams: usize,
    pub stream_buffer_depth: usize,
    pub prefetch: bool,
    pub bypass: bool,
}

impl CacheOptions {
    /// Options with no geometry, no policies and no lower level; latencies and counters
    /// zero, at most 8 prefetch streams of depth 4, prefetching and bypassing off.
    pub fn new() -> (o: Self)
        ensures
            o.size == 0,
            o.associativity == 0,
            o.set_num == 0,
            o.block_size == 0,
            o.write_hit_policy == WriteHitPolicy::Unset,
            o.write_miss_policy == WriteMissPolicy::Unset,
            o.replacement_policy == ReplacementPolicy::Unset,
            o.lower is None,
            o.latency.hit_latency == 0 && o.latency.bus_latency == 0,
            o.stats.is_zero(),
            o.layer == 0,
            o.max_streams == 8,
            o.stream_buffer_depth == 4,
            !o.prefetch,
            !o.bypass,
    {
        CacheOptions {
            size: 0,
            associativity: 0,
            set_num: 0,
            block_size: 0,
            write_hit_policy: WriteHitPolicy::Unset,
            write_miss_policy: WriteMissPolicy::Unset,
            replacement_policy: ReplacementPolicy::Unset,
            lower: None,
            latency: StorageLatency::default(),
            stats: StorageStats::default(),
            layer: 0,
            max_streams: 8,
            stream_buffer_depth: 4,
            prefetch: false,
            bypass: false,
        }
    }

    /// Sets the total size (zero: derive it).
    pub fn size(self, size: usize) -> (o: Self)
        ensures
            o == (CacheOptions { size, ..self }),
    {
        CacheOptions { size, ..self }
    }

    /// Sets the lines per set (zero: derive it).
    pub fn associativity(self, asct: usize) -> (o: Self)
        ensures
            o == (CacheOptions { associativity: asct, ..self }),
    {
        CacheOptions { associativity: asct, ..self }
    }

    /// Sets the number of sets (zero: derive it).
    pub fn set_num(self, set_num: usize) -> (o: Self)
        ensures
            o == (CacheOptions { set_num, ..self }),
    {
        CacheOptions { set_num, ..self }
    }

    /// Sets the bytes per line (zero: derive it).
    pub fn block_size(self, block_size: usize) -> (o: Self)
        ensures
            o == (CacheOptions { block_size, ..self }),
    {
        CacheOptions { block_size, ..self }
    }

    /// Sets the write-hit policy.
    pub fn write_hit_policy(self, write_hit_policy: WriteHitPolicy) -> (o: Self)
        ensures
            o == (CacheOptions { write_hit_policy, ..self }),
    {
        CacheOptions { write_hit_policy, ..self }
    }

    /// Sets the write-miss policy.
    pub fn write_miss_policy(self, write_miss_policy: WriteMissPolicy) -> (o: Self)
        ensures
            o == (CacheOptions { write_miss_policy, ..self }),
    {
        CacheOptions { write_miss_policy, ..self }
    }

    /// Sets the replacement policy.
    pub fn replacement_policy(self, replacement_policy: ReplacementPolicy) -> (o: Self)
        ensures
            o == (CacheOptions { replacement_policy, ..self }),
    {
        CacheOptions { replacement_policy, ..self }
    }

    /// Sets the level below the cache.
    pub fn lower(self, lower: Storage) -> (o: Self)
        ensures
            o == (CacheOptions { lower: Some(lower), ..self }),
    {
        CacheOptions { lower: Some(lower), ..self }
    }

    /// Sets the latencies.
    pub fn latency(self, storage_latency: StorageLatency) -> (o: Self)
        ensures
            o == (CacheOptions { latency: storage_latency, ..self }),
    {
        CacheOptions { latency: storage_latency, ..self }
    }

    /// Sets the initial counters.
    pub fn stats(self, storage_stats: StorageStats) -> (o: Self)
        ensures
            o == (CacheOptions { stats: storage_stats, ..self }),
    {
        CacheOptions { stats: storage_stats, ..self }
    }

    /// Sets the layer number.
    pub fn layer(self, layer: usize) -> (o: Self)
        ensures
            o == (CacheOptions { layer, ..self }),
    {
        CacheOptions { layer, ..self }
    }

    /// Sets the most prefetch streams kept.
    pub fn max_streams(self, max_streams: usize) -> (o: Self)
        ensures
            o == (CacheOptions { max_streams, ..self }),
    {
        CacheOptions { max_streams, ..self }
    }

    /// Sets how many lines a prefetch stream fetches ahead.
    pub fn stream_buffer_depth(self, stream_buffer_depth: usize) -> (o: Self)
        ensures
            o == (CacheOptions { stream_buffer_depth, ..self }),
    {
        CacheOptions { stream_buffer_depth, ..self }
    }

    /// Turns prefetching on or off.
    pub fn prefetch(self, prefetch: bool) -> (o: Self)
        ensures
            o == (CacheOptions { prefetch, ..self }),
    {
        CacheOptions { prefetch, ..self }
    }

    /// Turns bypassing on or off.
    pub fn bypass(self, bypass: bool) -> (o: Self)
        ensures
            o == (CacheOptions { bypass, ..self }),
    {
        CacheOptions { bypass, ..self }
    }
}


impl CacheOptions {
    /// The geometry these options complete to.
    pub open spec fn geometry(self) -> Result<(usize, usize, usize, usize), SimError> {
        cache_geometry(self.size, self.set_num, self.associativity, self.block_size)
    }

    /// The error `build` reports for these options, if any.
    pub open spec fn build_error(self) -> Option<SimError> {
        if self.write_miss_policy == WriteMissPolicy::Unset {
            Some(SimError::MissingWriteMissPolicy)
        } else if self.write_hit_policy == WriteHitPolicy::Unset {
            Some(SimError::MissingWriteHitPolicy)
        } else if self.replacement_policy == ReplacementPolicy::Unset {
            Some(SimError::MissingReplacementPolicy)
        } else if self.lower is None {
            Some(SimError::MissingLower)
        } else {
            match self.geometry() {
                Err(e) => Some(e),
                Ok(_) => None,
            }
        }
    }

    /// Building would overflow while completing the geometry, or would complete it with
    /// a zero set number, associativity or block size (of which no cache can be made),
    /// or with more ways than a set can hold.
    pub open spec fn build_panics(self) -> bool {
        &&& self.write_miss_policy != WriteMissPolicy::Unset
        &&& self.write_hit_policy != WriteHitPolicy::Unset
        &&& self.replacement_policy != ReplacementPolicy::Unset
        &&& self.lower is Some
        &&& {
            ||| geometry_overflows(self.size, self.set_num, self.associativity, self.block_size)
            ||| match self.geometry() {
                Ok((s, sn, a, b)) => sn == 0 || a == 0 || b == 0 || a > usize::MAX / 2,
                Err(_) => false,
            }
        }
    }
}

impl Cache {
    /// `self` is the cache `build` makes from `o`: the completed geometry, the policies,
    /// latency, counters, layer, lower level and prefetch settings of `o`; addresses split
    /// by `log2(block size)` byte-offset bits and `log2(set number)` set-index bits with
    /// the masks of `geometry`; every set blank, no prefetch stream, no stride history,
    /// and the request clock at zero.
    pub open spec fn built_from(self, o: CacheOptions) -> bool {
        let (s, sn, a, b) = o.geometry()->Ok_0;
        &&& self.size_spec() == s
        &&& self.set_num_spec() == sn
        &&& self.associativity_spec() == a
        &&& self.block_size_spec() == b
        &&& self.write_hit_policy_spec() == o.write_hit_policy
        &&& self.write_miss_policy_spec() == o.write_miss_policy
        &&& self.replacement_policy_spec() == o.replacement_policy
        &&& Some(self.lower_spec()) == o.lower
        &&& self.latency_spec() == o.latency
        &&& self.stats_spec() == o.stats
        &&& self.layer_spec() == o.layer
        &&& self.prefetch_spec() == o.prefetch
        &&& self.bypass_spec() == o.bypass
        &&& self.max_streams_spec() == o.max_streams
        &&& self.stream_depth_spec() == o.stream_buffer_depth
        &&& self.streams_spec() == Map::<i64, PrefetchStream>::empty()
        &&& pow2(self.offset_bits_spec() as nat) == b
        &&& pow2(self.set_bits_spec() as nat) == sn
        &&& self.offset_mask_spec() == byte_offset_mask_of(self.offset_bits_spec())
        &&& self.set_index_mask_spec() == set_index_mask_of(self.offset_bits_spec(), self.set_bits_spec())
        &&& self.tag_mask_spec() == tag_mask_of(self.offset_bits_spec(), self.set_bits_spec())
        &&& self.history_spec() == Seq::<(u64, i64)>::empty()
        &&& self.clock_spec() == 0
        &&& forall|i: int|
            0 <= i < sn ==> (#[trigger] self.set_spec(i)).is_blank(a as nat, b as nat)
    }

    /// Nothing has happened to the cache yet: every set is blank (blank lines of the block
    /// size, clear pseudo-LRU bits, clock hand at the first line), no missed address has been
    /// recorded for stride detection, the request clock is at zero, and addresses are split
    /// by the block size and the number of sets.
    /// The set at index `i`.
    pub closed spec fn set_spec(self, i: int) -> CacheSet {
        self.inner.sets()[i]
    }

    /// The number of set-index bits of an address.
    pub closed spec fn set_bits_spec(self) -> u32 {
        self.set_index_bits
    }

    /// The mask of the byte-offset bits of an address.
    pub closed spec fn offset_mask_spec(self) -> u64 {
        self.byte_offset_mask
    }

    /// The mask of the set-index bits of an address (in place, above the byte offset).
    pub closed spec fn set_index_mask_spec(self) -> u64 {
        self.set_index_mask
    }

    /// How the cache picks a line to evict.
    pub closed spec fn replacement_policy_spec(self) -> ReplacementPolicy {
        self.replacement_policy
    }

    /// Whether bypassing is on (it does not change how requests are served).
    pub closed spec fn bypass_spec(self) -> bool {
        self.bypass
    }
}

impl Cache {
    /// Whether the cache prefetches.
    pub closed spec fn prefetch_spec(self) -> bool {
        self.prefetch
    }

    /// The prefetch streams, keyed by stride.
    pub closed spec fn streams_spec(self) -> Map<i64, PrefetchStream> {
        self.prefetch_manager.streams@
    }

    /// The most streams the prefetcher keeps.
    pub closed spec fn max_streams_spec(self) -> usize {
        self.prefetch_manager.max_streams
    }

    /// How many lines a stream fetches ahead.
    pub closed spec fn stream_depth_spec(self) -> usize {
        self.prefetch_manager.stream_buffer_depth
    }
}

/// A well-formed cache (one that was built, and has served any number of requests since)
/// keeps no more prefetch streams than its limit allows, and no stream holds more lines
/// than the stream depth.
pub proof fn law_prefetch_within_limits(c: Cache)
    requires
        c.wf(),
    ensures
        c.streams_spec().len() <= stream_capacity(c.max_streams_spec()),
        forall|k: i64| #[trigger]
            c.streams_spec().contains_key(k) ==> c.streams_spec()[k].buffer@.len() <= c.stream_depth_spec(),
{
}

impl Cache {
    /// The mask of the tag bits of an address.
    pub closed spec fn tag_mask_spec(self) -> u64 {
        self.tag_mask
    }
}

/// How many of the results `rs` report a miss.
pub open spec fn miss_count(rs: Seq<(bool, usize)>) -> nat
    decreases rs.len(),
{
    if rs.len() == 0 {
        0
    } else {
        miss_count(rs.drop_last()) + if rs.last().0 { 0nat } else { 1nat }
    }
}

/// The sum of the times of the results `rs`.
pub open spec fn total_time(rs: Seq<(bool, usize)>) -> nat
    decreases rs.len(),
{
    if rs.len() == 0 {
        0
    } else {
        total_time(rs.drop_last()) + rs.last().1 as nat
    }
}

/// Over a run of requests to a cache that does not prefetch, the counters add up: one
/// access per request, one miss per request reported as a miss, the sum of the reported
/// times, and no prefetch counted (`cs` are the states the cache passes through, `reqs`
/// the requests as (address, bytes, read), `rs` their results; the totals fit a `usize`).
pub proof fn law_counters_over_requests(
    cs: Seq<Cache>,
    reqs: Seq<(u64, usize, bool)>,
    rs: Seq<(bool, usize)>,
)
    requires
        cs.len() == reqs.len() + 1,
        rs.len() == reqs.len(),
        !cs[0].prefetch_spec(),
        forall|i: int|
            0 <= i < reqs.len() ==> #[trigger] cs[i].cache_served(
                cs[i + 1],
                reqs[i].0,
                reqs[i].1,
                reqs[i].2,
                rs[i],
            ),
        cs[0].stats_spec().access_counter + reqs.len() <= usize::MAX,
        cs[0].stats_spec().miss_num + reqs.len() <= usize::MAX,
        cs[0].stats_spec().access_time + total_time(rs) <= usize::MAX,
    ensures
        cs.last().stats_spec().access_counter == cs[0].stats_spec().access_counter + reqs.len(),
        cs.last().stats_spec().miss_num == cs[0].stats_spec().miss_num + miss_count(rs),
        cs.last().stats_spec().access_time == cs[0].stats_spec().access_time + total_time(rs),
        cs.last().stats_spec().prefetch_num == cs[0].stats_spec().prefetch_num,
        cs.last().stats_spec().prefetch_hit == cs[0].stats_spec().prefetch_hit,
        !cs.last().prefetch_spec(),
    decreases reqs.len(),
{
    let n = reqs.len() as int;
    if n > 0 {
        let cs1 = cs.drop_last();
        let reqs1 = reqs.drop_last();
        let rs1 = rs.drop_last();
        assert forall|i: int| 0 <= i < reqs1.len() implies #[trigger] cs1[i].cache_served(
            cs1[i + 1],
            reqs1[i].0,
            reqs1[i].1,
            reqs1[i].2,
            rs1[i],
        ) by {
            assert(cs[i].cache_served(cs[i + 1], reqs[i].0, reqs[i].1, reqs[i].2, rs[i]));
        }
        assert(miss_count(rs1) <= rs1.len()) by {
            lemma_miss_count_bound(rs1);
        }
        law_counters_over_requests(cs1, reqs1, rs1);
        assert(cs[n - 1].cache_served(cs[n], reqs[n - 1].0, reqs[n - 1].1, reqs[n - 1].2, rs[n - 1]));
        lemma_miss_count_bound(rs);
    }
}

/// A miss that brings its block into the cache counts one fetch, and when the set was full
/// it evicts a line and counts exactly one replacement, whether the request was a read or
/// a write (a write miss fills only under write-allocate); a hit, a miss into a set with a
/// free line, and a write miss that goes around the cache leave the replacement count as
/// it was, and only a filling miss counts a fetch.
pub proof fn law_evicting_fill_counts_one_replacement(
    c: Cache,
    after: Cache,
    addr: u64,
    bytes: usize,
    read: bool,
    r: (bool, usize),
)
    requires
        c.cache_served(after, addr, bytes, read, r),
        c.stats_spec().replace_num < usize::MAX,
        c.stats_spec().fetch_num < usize::MAX,
    ensures
        !r.0 && (read || c.write_miss_policy_spec() == WriteMissPolicy::WriteAllocate)
            && c.set_full(addr) ==> after.stats_spec().replace_num == c.stats_spec().replace_num + 1,
        !r.0 && !read && c.write_miss_policy_spec() == WriteMissPolicy::WriteAllocate && c.set_full(
            addr,
        ) ==> after.stats_spec().replace_num == c.stats_spec().replace_num + 1,
        r.0 || !c.set_full(addr) || (!read && c.write_miss_policy_spec()
            != WriteMissPolicy::WriteAllocate) ==> after.stats_spec().replace_num
            == c.stats_spec().replace_num,
        after.stats_spec().fetch_num == c.stats_spec().fetch_num + if !r.0 && (read
            || c.write_miss_policy_spec() == WriteMissPolicy::WriteAllocate) {
            1int
        } else {
            0
        },
{
}

/// At most every result is a miss.
pub proof fn lemma_miss_count_bound(rs: Seq<(bool, usize)>)
    ensures
        miss_count(rs) <= rs.len(),
    decreases rs.len(),
{
    if rs.len() > 0 {
        lemma_miss_count_bound(rs.drop_last());
    }
}

/// What a level's views mean for main memory and for a cache: its counters, latencies,
/// depth, invariant, the longest time one request takes, and when it has room for `k`
/// more requests.
pub proof fn lemma_level_views(s: Storage, k: nat)
    ensures
        s matches Storage::Memory(m) ==> {
            &&& s.stats_spec() == m.stats_spec()
            &&& s.latency_spec() == m.latency_spec()
            &&& s.depth() == 0
            &&& s.wf()
            &&& s.max_time() == m.request_time()
            &&& s.headroom(k) == (m.stats_spec().access_counter + k <= usize::MAX
                && m.stats_spec().access_time + k * m.request_time() <= usize::MAX)
        },
        s matches Storage::Cache(c) ==> {
            &&& s.stats_spec() == c.stats_spec()
            &&& s.latency_spec() == c.latency_spec()
            &&& s.depth() == c.lower_spec().depth() + 1
            &&& s.wf() == c.wf()
            &&& c.max_time() == s.max_time()
            &&& s.max_time() == c.base_time() + 2 * c.lower_spec().max_time()
            &&& s.headroom(k) == c.headroom(k)
            &&& c.headroom(k) == ({
                let st = c.stats_spec();
                let calls = if c.prefetch_spec() { c.stream_depth_spec() + 2 } else { 2 };
                &&& st.access_counter + k <= usize::MAX
                &&& st.miss_num + k <= usize::MAX
                &&& st.fetch_num + k <= usize::MAX
                &&& st.replace_num + k <= usize::MAX
                &&& st.prefetch_hit + k <= usize::MAX
                &&& st.prefetch_num + k * c.stream_depth_spec() <= usize::MAX
                &&& st.access_time + k * c.max_time() <= usize::MAX
                &&& c.clock_spec() + k <= u64::MAX
                &&& c.lower_spec().headroom((k * calls) as nat)
            })
        },
{
}

/// Two caches with the same layout agree on their geometry, policies, latencies, layer,
/// prefetch settings and the way they split an address.
pub proof fn lemma_same_layout(a: Cache, b: Cache, addr: u64)
    requires
        a.same_layout(b),
    ensures
        a.size_spec() == b.size_spec(),
        a.associativity_spec() == b.associativity_spec(),
        a.set_num_spec() == b.set_num_spec(),
        a.block_size_spec() == b.block_size_spec(),
        a.write_hit_policy_spec() == b.write_hit_policy_spec(),
        a.write_miss_policy_spec() == b.write_miss_policy_spec(),
        a.replacement_policy_spec() == b.replacement_policy_spec(),
        a.latency_spec() == b.latency_spec(),
        a.layer_spec() == b.layer_spec(),
        a.prefetch_spec() == b.prefetch_spec(),
        a.bypass_spec() == b.bypass_spec(),
        a.max_streams_spec() == b.max_streams_spec(),
        a.stream_depth_spec() == b.stream_depth_spec(),
        a.offset_bits_spec() == b.offset_bits_spec(),
        a.tag_mask_spec() == b.tag_mask_spec(),
        a.set_index_of(addr) == b.set_index_of(addr),
        a.tag_of(addr) == b.tag_of(addr),
{
}

/// What the cache's views of an address mean: the set it maps to (within the sets, of
/// `associativity` lines whose valid lines carry distinct tags), its tag, and when it hits,
/// hits dirty, or finds its set full.
pub proof fn lemma_cache_views(c: Cache, addr: u64)
    ensures
        c.lines_for(addr) == c.set_for(addr).lines(),
        c.tag_of(addr) == addr & c.tag_mask_spec(),
        c.would_hit(addr) == (c.line_hit(addr) || c.stream_hit(addr)),
        c.line_hit(addr) == exists|i: int|
            0 <= i < c.lines_for(addr).len() && (#[trigger] c.lines_for(addr)[i]).valid
                && c.lines_for(addr)[i].tag == c.tag_of(addr),
        c.dirty_hit(addr) == exists|i: int|
            0 <= i < c.lines_for(addr).len() && (#[trigger] c.lines_for(addr)[i]).valid
                && c.lines_for(addr)[i].tag == c.tag_of(addr) && c.lines_for(addr)[i].dirty,
        c.set_full(addr) == forall|i: int|
            0 <= i < c.lines_for(addr).len() ==> (#[trigger] c.lines_for(addr)[i]).valid,
        c.stream_hit(addr) == (c.prefetch_spec() && exists|k: i64|
            #[trigger] c.streams_spec().contains_key(k) && c.streams_spec()[k].holds(
                c.tag_of(addr),
                c.set_index_of(addr),
            )),
        c.wf() ==> {
            &&& c.set_index_of(addr) < c.set_num_spec()
            &&& c.set_for(addr).lines().len() == c.associativity_spec()
            &&& c.set_for(addr).tags_ok(c.set_index_of(addr), c.tag_mask_spec())
            &&& c.lower_spec().wf()
        },
{
    let t = c.tag_of(addr);
    let si = c.set_index_of(addr);
    if c.prefetch_manager.holds(t, si) {
        let k = choose|k: i64| #[trigger] c.prefetch_manager.streams@.contains_key(k) && c.prefetch_manager.streams@[k].holds(t, si);
        assert(c.streams_spec().contains_key(k) && c.streams_spec()[k].holds(t, si));
    }
    if exists|k: i64| #[trigger] c.streams_spec().contains_key(k) && c.streams_spec()[k].holds(t, si) {
        let k = choose|k: i64| #[trigger] c.streams_spec().contains_key(k) && c.streams_spec()[k].holds(t, si);
        assert(c.prefetch_manager.streams@.contains_key(k));
    }
    if c.wf() {
        lemma_set_index_in_range(addr, c.byte_offset_bits, c.set_index_bits);
        assert(c.inner.sets()[c.set_index_of(addr) as int].wf(c.associativity as nat, c.clock));
    }
}

/// A cache just built holds no block and no prefetched line: every address misses, and
/// the set it maps to has a free line, so the miss replaces nothing.
pub proof fn law_fresh_cache_misses(c: Cache, o: CacheOptions, addr: u64)
    requires
        c.wf(),
        c.built_from(o),
    ensures
        !c.would_hit(addr),
        !c.set_full(addr),
{
    lemma_set_index_in_range(addr, c.byte_offset_bits, c.set_index_bits);
    let si = c.set_index_of(addr) as int;
    assert(0 <= si < c.set_num);
    assert(c.inner.sets()[si].wf(c.associativity as nat, c.clock));
    assert(c.set_spec(si).is_blank(c.associativity as nat, c.block_size as nat));
    assert(!c.lines_for(addr)[0].valid);
    if c.line_hit(addr) {
        let i = choose|i: int|
            0 <= i < c.lines_for(addr).len() && (#[trigger] c.lines_for(addr)[i]).valid
                && c.lines_for(addr)[i].tag == c.tag_of(addr);
        assert(!c.inner.sets()[si].lines()[i].valid);
    }
    if c.stream_hit(addr) {
        let k = choose|k: i64|
            #[trigger] c.prefetch_manager.streams@.contains_key(k)
                && c.prefetch_manager.streams@[k].holds(c.tag_of(addr), c.set_index_of(addr));
        assert(c.prefetch_manager.streams@.dom().contains(k));
    }
}

impl CacheOptions {
    /// Builds the cache, or reports the first missing setting (write-miss policy,
    /// write-hit policy, replacement policy, lower level) or the geometry error.  A cache
    /// that prefetches with a stream depth of zero is built too, but is not well formed:
    /// its streams stay empty, and it fails once its stream table fills, so it is not
    /// given requests.
    pub fn build(self) -> (r: Result<Cache, SimError>)
        requires
            !self.build_panics(),
            self.lower matches Some(l) ==> l.wf(),
        ensures
            r is Err <==> self.build_error() is Some,
            r matches Err(e) ==> self.build_error() == Some(e),
            r matches Ok(c) ==> c.built_from(self) && self.lower == Some(c.lower_spec()),
            r matches Ok(c) ==> (c.wf() <==> (self.prefetch ==> self.stream_buffer_depth >= 1)),
    {
        if self.write_miss_policy == WriteMissPolicy::Unset {
            return Err(SimError::MissingWriteMissPolicy);
        }
        if self.write_hit_policy == WriteHitPolicy::Unset {
            return Err(SimError::MissingWriteHitPolicy);
        }
        if self.replacement_policy == ReplacementPolicy::Unset {
            return Err(SimError::MissingReplacementPolicy);
        }
        let lower = match self.lower {
            Some(lower) => lower,
            None => {
                return Err(SimError::MissingLower);
            },
        };
        let (size, set_num, associativity, block_size) = match init_cache_config(
            self.size,
            self.set_num,
            self.associativity,
            self.block_size,
        ) {
            Ok(g) => g,
            Err(e) => {
                return Err(e);
            },
        };
        proof {
            law_complete_geometry_is_consistent(self.size, self.set_num, self.associativity, self.block_size);
        }
        let byte_offset_bits = log2_of_power_of_two(block_size);
        let set_index_bits = log2_of_power_of_two(set_num);
        proof {
            lemma_bits_fit(size, set_num, associativity, block_size, byte_offset_bits, set_index_bits);
            lemma_shl_one_is_pow2(byte_offset_bits);
            lemma_shl_one_is_pow2(set_index_bits);
            vstd::arithmetic::power2::lemma_pow2_pos(byte_offset_bits as nat);
            vstd::arithmetic::power2::lemma_pow2_pos(set_index_bits as nat);
        }
        let byte_offset_mask = (1u64 << byte_offset_bits) - 1;
        let set_index_mask = ((1u64 << set_index_bits) - 1) << byte_offset_bits;
        let tag_mask = (!0u64) ^ (byte_offset_mask | set_index_mask);
        let inner = CacheInner::new(set_num, associativity, block_size);
        let cache = Cache {
            size,
            associativity,
            set_num,
            block_size,
            write_hit_policy: self.write_hit_policy,
            write_miss_policy: self.write_miss_policy,
            replacement_policy: self.replacement_policy,
            lower,
            latency: self.latency,
            stats: self.stats,
            layer: self.layer,
            byte_offset_bits,
            byte_offset_mask,
            set_index_bits,
            set_index_mask,
            tag_mask,
            inner,
            prefetch_manager: PrefetchStreamManager::new(self.max_streams, self.stream_buffer_depth),
            prefetch: self.prefetch,
            bypass: self.bypass,
            clock: 0,
        };
        Ok(cache)
    }
}

/// The byte-offset and set-index bits of a consistent geometry fit in a 64-bit address.
proof fn lemma_bits_fit(size: usize, set_num: usize, associativity: usize, block_size: usize, b: u32, s: u32)
    requires
        size == set_num * associativity * block_size,
        associativity >= 1,
        pow2(b as nat) == block_size,
        pow2(s as nat) == set_num,
    ensures
        b + s < 64,
{
    vstd::arithmetic::power2::lemma_pow2_adds(b as nat, s as nat);
    assert(set_num * block_size <= size) by (nonlinear_arith)
        requires
            size == set_num * associativity * block_size,
            associativity >= 1,
            set_num >= 0,
            block_size >= 0,
    ;
    if b + s >= 64 {
        vstd::arithmetic::power2::lemma2_to64();
        if b + s > 64 {
            vstd::arithmetic::power2::lemma_pow2_strictly_increases(64, (b + s) as nat);
        }
        assert(pow2((b + s) as nat) == block_size * set_num);
        assert(false);
    }
}


impl Storage {
    /// The latencies of this level.
    pub fn get_latency(&self) -> (r: StorageLatency)
        ensures
            r == self.latency_spec(),
    {
        match self {
            Storage::Memory(m) => m.get_latency(),
            Storage::Cache(c) => c.get_latency(),
        }
    }

    /// The counters of this level.
    pub fn get_stats(&self) -> (r: StorageStats)
        ensures
            r == self.stats_spec(),
    {
        match self {
            Storage::Memory(m) => m.get_stats(),
            Storage::Cache(c) => c.get_stats(),
        }
    }

    /// The level below: none for main memory.
    pub fn get_lower(&self) -> (r: Option<&Storage>)
        ensures
            match *self {
                Storage::Memory(_) => r is None,
                Storage::Cache(c) => r == Some(&c.lower_spec()),
            },
    {
        match self {
            Storage::Memory(_) => None,
            Storage::Cache(c) => c.get_lower(),
        }
    }

    /// Whether `k` more requests can be served at this level and below without a counter
    /// overflowing (`k >= 1`).
    pub fn has_headroom(&self, k: usize) -> (r: bool)
        requires
            k >= 1,
        ensures
            r == self.headroom(k as nat),
        decreases self.depth(), 1int,
    {
        match self {
            Storage::Memory(m) => {
                let stats = m.get_stats();
                let latency = m.get_latency();
                if stats.access_counter > usize::MAX - k {
                    return false;
                }
                let time = match latency.hit_latency.checked_add(latency.bus_latency) {
                    Some(t) => t,
                    None => {
                        proof {
                            assert(k * m.request_time() >= m.request_time()) by (nonlinear_arith)
                                requires k >= 1, m.request_time() >= 0;
                        }
                        return false;
                    },
                };
                match time.checked_mul(k) {
                    Some(total) => {
                        proof {
                            assert(total == k * m.request_time()) by (nonlinear_arith)
                                requires total == time * k, time == m.request_time();
                        }
                        stats.access_time <= usize::MAX - total
                    },
                    None => {
                        proof {
                            assert(k * m.request_time() == time * k) by (nonlinear_arith)
                                requires time == m.request_time();
                        }
                        false
                    },
                }
            },
            Storage::Cache(c) => c.has_headroom(k),
        }
    }
}

impl Cache {
    /// The latencies of this level.
    pub fn get_latency(&self) -> (r: StorageLatency)
        ensures
            r == self.latency_spec(),
    {
        self.latency
    }

    /// The counters of this level.
    pub fn get_stats(&self) -> (r: StorageStats)
        ensures
            r == self.stats_spec(),
    {
        self.stats
    }

    pub fn get_lower(&self) -> (r: Option<&Storage>)
        ensures
            r == Some(&self.lower_spec()),
    {
        Some(&self.lower)
    }

    /// The cache's layer number (1 for L1, ...).
    pub fn layer(&self) -> (r: usize)
        ensures
            r == self.layer_spec(),
    {
        self.layer
    }

    /// Total size in bytes.
    pub fn size(&self) -> (r: usize)
        ensures
            r == self.size_spec(),
    {
        self.size
    }

    /// Lines per set.
    pub fn associativity(&self) -> (r: usize)
        ensures
            r == self.associativity_spec(),
    {
        self.associativity
    }

    /// Number of sets.
    pub fn set_num(&self) -> (r: usize)
        ensures
            r == self.set_num_spec(),
    {
        self.set_num
    }

    /// Bytes per line.
    pub fn block_size(&self) -> (r: usize)
        ensures
            r == self.block_size_spec(),
    {
        self.block_size
    }

    /// The longest time one request to this cache can take, if it fits in a `usize`.
    fn max_time_exec(&self) -> (r: Option<usize>)
        ensures
            match r {
                Some(t) => t == self.max_time(),
                None => self.max_time() > usize::MAX,
            },
        decreases self.lower_spec().depth() + 1, 0int,
    {
        let lower_max = match self.lower.max_time_exec() {
            Some(t) => t,
            None => {
                return None;
            },
        };
        let local = match self.latency.bus_latency.checked_add(self.latency.hit_latency) {
            Some(t) => t,
            None => {
                return None;
            },
        };
        let twice = match lower_max.checked_mul(2) {
            Some(t) => t,
            None => {
                return None;
            },
        };
        local.checked_add(twice)
    }

    /// Whether `k` more requests can be served by this cache and the levels below without
    /// a counter overflowing (`k >= 1`).
    pub fn has_headroom(&self, k: usize) -> (r: bool)
        requires
            k >= 1,
        ensures
            r == self.headroom(k as nat),
        decreases self.lower_spec().depth() + 1, 0int,
    {
        let s = self.stats;
        if s.access_counter > usize::MAX - k || s.miss_num > usize::MAX - k || s.fetch_num
            > usize::MAX - k || s.replace_num > usize::MAX - k || s.prefetch_hit > usize::MAX - k {
            return false;
        }
        if self.clock > u64::MAX - (k as u64) {
            return false;
        }
        let depth = self.prefetch_manager.stream_buffer_depth;
        match depth.checked_mul(k) {
            Some(p) => {
                proof {
                    assert(p == k * depth) by (nonlinear_arith)
                        requires p == depth * k;
                }
                if s.prefetch_num > usize::MAX - p {
                    return false;
                }
            },
            None => {
                proof {
                    assert(k * depth == depth * k) by (nonlinear_arith);
                }
                return false;
            },
        }
        match self.max_time_exec() {
            Some(t) => match t.checked_mul(k) {
                Some(total) => {
                    proof {
                        assert(total == k * self.max_time()) by (nonlinear_arith)
                            requires total == t * k, t == self.max_time();
                    }
                    if s.access_time > usize::MAX - total {
                        return false;
                    }
                },
                None => {
                    proof {
                        assert(k * self.max_time() == t * k) by (nonlinear_arith)
                            requires t == self.max_time();
                    }
                    return false;
                },
            },
            None => {
                proof {
                    assert(k * self.max_time() >= self.max_time()) by (nonlinear_arith)
                        requires k >= 1;
                }
                return false;
            },
        }
        let calls = if self.prefetch { depth.checked_add(2) } else { Some(2) };
        let calls = match calls {
            Some(c) => c,
            None => {
                proof {
                    assert(k * self.lower_calls() >= self.lower_calls()) by (nonlinear_arith)
                        requires k >= 1;
                    lemma_no_headroom_past_max(self.lower, (k * self.lower_calls()) as nat);
                }
                return false;
            },
        };
        match calls.checked_mul(k) {
            Some(lower_k) => {
                proof {
                    assert(lower_k == k * self.lower_calls()) by (nonlinear_arith)
                        requires lower_k == calls * k, calls == self.lower_calls();
                    assert(lower_k >= 1) by (nonlinear_arith)
                        requires lower_k == calls * k, calls >= 2, k >= 1;
                }
                self.lower.has_headroom(lower_k)
            },
            None => {
                proof {
                    assert(k * self.lower_calls() == calls * k) by (nonlinear_arith)
                        requires calls == self.lower_calls();
                    lemma_no_headroom_past_max(self.lower, (k * self.lower_calls()) as nat);
                }
                false
            },
        }
    }
}

impl Storage {
    fn max_time_exec(&self) -> (r: Option<usize>)
        ensures
            match r {
                Some(t) => t == self.max_time(),
                None => self.max_time() > usize::MAX,
            },
        decreases self.depth(), 1int,
    {
        match self {
            Storage::Memory(m) => {
                let l = m.get_latency();
                l.hit_latency.checked_add(l.bus_latency)
            },
            Storage::Cache(c) => c.max_time_exec(),
        }
    }
}

/// No level has room for more requests than a `usize` can count.
proof fn lemma_no_headroom_past_max(s: Storage, k: nat)
    requires
        k > usize::MAX,
    ensures
        !s.headroom(k),
{
}


impl CacheOptions {
    /// Whether `build` would fail on arithmetic or on a zero or oversized part of the
    /// completed geometry (see `build_panics`).
    pub fn build_would_panic(&self) -> (r: bool)
        ensures
            r == self.build_panics(),
    {
        if self.write_miss_policy == WriteMissPolicy::Unset || self.write_hit_policy
            == WriteHitPolicy::Unset || self.replacement_policy == ReplacementPolicy::Unset
            || self.lower.is_none() {
            return false;
        }
        let size = self.size;
        let sn = self.set_num;
        let a = self.associativity;
        let b = self.block_size;
        let zeros: usize = (if size == 0 { 1 } else { 0 }) + (if sn == 0 { 1 } else { 0 }) + (if a
            == 0 { 1 } else { 0 }) + (if b == 0 { 1 } else { 0 });
        if zeros > 1 {
            return false;
        }
        if (size != 0 && !is_power_of_two(size)) || (sn != 0 && !is_power_of_two(sn)) || (a != 0
            && !is_power_of_two(a)) || (b != 0 && !is_power_of_two(b)) {
            return false;
        }
        let overflows = if size == 0 || (sn != 0 && a != 0 && b != 0) {
            match sn.checked_mul(a) {
                Some(p) => p.checked_mul(b).is_none(),
                None => true,
            }
        } else if sn == 0 {
            a.checked_mul(b).is_none()
        } else if a == 0 {
            sn.checked_mul(b).is_none()
        } else {
            sn.checked_mul(a).is_none()
        };
        if overflows {
            return true;
        }
        match init_cache_config(size, sn, a, b) {
            Ok((_, sn, a, b)) => sn == 0 || a == 0 || b == 0 || a > usize::MAX / 2,
            Err(_) => false,
        }
    }
}

} // verus!
