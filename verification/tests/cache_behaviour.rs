use cache_simulator::cache::{
    Cache, CacheOptions, ReplacementPolicy, Storage, WriteHitPolicy, WriteMissPolicy,
};
use cache_simulator::error::SimError;
use cache_simulator::memory::MemoryOptions;
use cache_simulator::storage::{StorageLatency, StorageStats};

fn memory() -> Storage {
    let m = MemoryOptions::new()
        .latency(StorageLatency { hit_latency: 100, bus_latency: 10 })
        .stats(StorageStats::default())
        .build()
        .unwrap();
    Storage::Memory(m)
}

fn one_set_cache(
    size: usize,
    ways: usize,
    wh: WriteHitPolicy,
    wm: WriteMissPolicy,
    rp: ReplacementPolicy,
) -> CacheOptions {
    CacheOptions::new()
        .size(size)
        .associativity(ways)
        .block_size(64)
        .write_hit_policy(wh)
        .write_miss_policy(wm)
        .replacement_policy(rp)
        .latency(StorageLatency { hit_latency: 1, bus_latency: 1 })
        .stats(StorageStats::default())
        .layer(1)
        .lower(memory())
}

fn build(o: CacheOptions) -> Cache {
    assert!(!o.build_would_panic());
    match o.build() {
        Ok(c) => c,
        Err(e) => panic!("build failed: {:?}", e),
    }
}

fn lower_accesses(c: &Cache) -> usize {
    c.get_lower().unwrap().get_stats().access_counter
}

#[test]
fn lru_read_sequence_hits_and_evicts_least_recent() {
    let mut c = build(one_set_cache(
        128,
        2,
        WriteHitPolicy::WriteBack,
        WriteMissPolicy::WriteAllocate,
        ReplacementPolicy::LRU,
    ));
    assert_eq!(c.set_num(), 1);
    assert_eq!(c.handle_request(0x0, 1, true), (false, 112));
    assert_eq!(c.handle_request(0x40, 1, true), (false, 112));
    assert_eq!(c.handle_request(0x0, 1, true), (true, 2));
    // The set is full: 0x40 was used least recently and leaves.
    assert_eq!(c.handle_request(0x80, 1, true), (false, 112));
    assert_eq!(c.handle_request(0x0, 1, true), (true, 2));
    assert_eq!(c.handle_request(0x40, 1, true), (false, 112));
    assert_eq!(c.handle_request(0x0, 1, true), (true, 2));
    let s = c.get_stats();
    assert_eq!(s.access_counter, 7);
    assert_eq!(s.miss_num, 4);
    assert_eq!(s.fetch_num, 4);
    assert_eq!(s.replace_num, 2);
    assert_eq!(s.access_time, 4 * 112 + 3 * 2);
    assert_eq!(lower_accesses(&c), 4);
    assert_eq!(c.get_lower().unwrap().get_stats().access_time, 440);
}

#[test]
fn read_after_read_hits() {
    let mut c = build(one_set_cache(
        256,
        4,
        WriteHitPolicy::WriteThrough,
        WriteMissPolicy::NonWriteAllocate,
        ReplacementPolicy::Clock,
    ));
    assert!(!c.handle_request(0x1234, 4, true).0);
    assert!(c.handle_request(0x1234, 4, true).0);
    assert!(c.handle_request(0x1200, 1, true).0);
}

#[test]
fn write_back_defers_writes_until_eviction() {
    let mut c = build(one_set_cache(
        128,
        2,
        WriteHitPolicy::WriteBack,
        WriteMissPolicy::WriteAllocate,
        ReplacementPolicy::LRU,
    ));
    assert_eq!(c.handle_request(0x0, 1, false), (false, 112));
    assert_eq!(c.handle_request(0x40, 1, false), (false, 112));
    assert_eq!(lower_accesses(&c), 2);
    // A write hit under write-back does not reach memory.
    assert_eq!(c.handle_request(0x40, 1, false), (true, 2));
    assert_eq!(lower_accesses(&c), 2);
    // Evicting the dirty line 0x0 writes it back: fetch plus write-back.
    assert_eq!(c.handle_request(0x80, 1, true), (false, 222));
    assert_eq!(lower_accesses(&c), 4);
    assert_eq!(c.get_stats().replace_num, 1);
}

#[test]
fn write_through_forwards_every_write() {
    let mut c = build(one_set_cache(
        128,
        2,
        WriteHitPolicy::WriteThrough,
        WriteMissPolicy::NonWriteAllocate,
        ReplacementPolicy::LRU,
    ));
    // A write miss without write-allocate goes to memory and caches nothing.
    assert_eq!(c.handle_request(0x0, 1, false), (false, 112));
    assert_eq!(lower_accesses(&c), 1);
    assert_eq!(c.handle_request(0x0, 1, true), (false, 112));
    assert_eq!(lower_accesses(&c), 2);
    // A write hit under write-through is forwarded.
    assert_eq!(c.handle_request(0x0, 1, false), (true, 112));
    assert_eq!(lower_accesses(&c), 3);
    assert_eq!(c.handle_request(0x0, 1, true), (true, 2));
    assert_eq!(lower_accesses(&c), 3);
    let s = c.get_stats();
    assert_eq!(s.miss_num, 2);
    assert_eq!(s.fetch_num, 1);
}

#[test]
fn write_allocate_fills_the_line() {
    let mut c = build(one_set_cache(
        128,
        2,
        WriteHitPolicy::WriteThrough,
        WriteMissPolicy::WriteAllocate,
        ReplacementPolicy::PseudoLRU,
    ));
    assert_eq!(c.handle_request(0x100, 1, false), (false, 112));
    assert_eq!(c.handle_request(0x100, 1, true), (true, 2));
    assert_eq!(c.get_stats().fetch_num, 1);
}

#[test]
fn clock_policy_gives_a_second_chance() {
    let mut c = build(one_set_cache(
        128,
        2,
        WriteHitPolicy::WriteBack,
        WriteMissPolicy::WriteAllocate,
        ReplacementPolicy::Clock,
    ));
    c.handle_request(0x0, 1, true);
    c.handle_request(0x40, 1, true);
    // Both lines are referenced: the hand clears both and takes line 0 (0x0).
    assert_eq!(c.handle_request(0x80, 1, true), (false, 112));
    assert!(c.handle_request(0x40, 1, true).0);
    assert!(!c.handle_request(0x0, 1, true).0);
}

#[test]
fn pseudo_lru_replaces_in_tree_order() {
    let mut c = build(one_set_cache(
        256,
        4,
        WriteHitPolicy::WriteBack,
        WriteMissPolicy::WriteAllocate,
        ReplacementPolicy::PseudoLRU,
    ));
    for a in [0x0u64, 0x40, 0x80, 0xc0] {
        assert!(!c.handle_request(a, 1, true).0);
    }
    // The tree starts all false, so the first victim is line 3 (0xc0).
    assert!(!c.handle_request(0x100, 1, true).0);
    assert!(c.handle_request(0x0, 1, true).0);
    assert!(c.handle_request(0x40, 1, true).0);
    assert!(c.handle_request(0x80, 1, true).0);
    assert!(!c.handle_request(0xc0, 1, true).0);
    assert_eq!(c.get_stats().replace_num, 2);
}

#[test]
fn prefetch_stream_serves_sequential_reads() {
    let o = one_set_cache(
        256,
        4,
        WriteHitPolicy::WriteBack,
        WriteMissPolicy::WriteAllocate,
        ReplacementPolicy::LRU,
    )
    .prefetch(true);
    let mut c = build(o);
    assert_eq!(c.handle_request(0x0, 1, true), (false, 112));
    assert_eq!(lower_accesses(&c), 5);
    assert_eq!(c.handle_request(0x40, 1, true), (false, 112));
    assert_eq!(lower_accesses(&c), 10);
    // 0x80 was fetched ahead along the stride 0x40.
    assert_eq!(c.handle_request(0x80, 1, true), (true, 2));
    assert_eq!(c.handle_request(0x80, 1, true), (true, 2));
    assert_eq!(lower_accesses(&c), 10);
    let s = c.get_stats();
    assert_eq!(s.access_counter, 4);
    assert_eq!(s.miss_num, 2);
    assert_eq!(s.prefetch_num, 8);
    assert_eq!(s.prefetch_hit, 2);
    assert_eq!(s.access_time, 224);
}

#[test]
fn storage_level_dispatches_to_the_cache() {
    let c = build(one_set_cache(
        128,
        2,
        WriteHitPolicy::WriteBack,
        WriteMissPolicy::WriteAllocate,
        ReplacementPolicy::LRU,
    ));
    let mut top = Storage::Cache(Box::new(c));
    assert_eq!(top.handle_request(0x40, 1, true), (false, 112));
    assert_eq!(top.handle_request(0x40, 1, true), (true, 2));
    assert_eq!(top.get_stats().access_counter, 2);
    assert_eq!(top.get_latency().hit_latency, 1);
    let lower = top.get_lower().unwrap();
    assert_eq!(lower.get_stats().access_counter, 1);
    assert!(lower.get_lower().is_none());
}

#[test]
fn memory_always_hits_in_constant_time() {
    let mut m = memory();
    assert_eq!(m.handle_request(0x1234, 8, true), (true, 110));
    assert_eq!(m.handle_request(0xffff_ffff_ffff_fff0, 64, false), (true, 110));
    let s = m.get_stats();
    assert_eq!(s.access_counter, 2);
    assert_eq!(s.access_time, 220);
    assert_eq!(s.miss_num, 0);
}

#[test]
fn build_reports_missing_settings_in_order() {
    assert_eq!(CacheOptions::new().build().err(), Some(SimError::MissingWriteMissPolicy));
    let o = CacheOptions::new().write_miss_policy(WriteMissPolicy::WriteAllocate);
    assert_eq!(o.build().err(), Some(SimError::MissingWriteHitPolicy));
    let o = CacheOptions::new()
        .write_miss_policy(WriteMissPolicy::WriteAllocate)
        .write_hit_policy(WriteHitPolicy::WriteBack);
    assert_eq!(o.build().err(), Some(SimError::MissingReplacementPolicy));
    let o = CacheOptions::new()
        .write_miss_policy(WriteMissPolicy::WriteAllocate)
        .write_hit_policy(WriteHitPolicy::WriteBack)
        .replacement_policy(ReplacementPolicy::LRU)
        .size(128)
        .associativity(2)
        .block_size(64);
    assert_eq!(o.build().err(), Some(SimError::MissingLower));
}

#[test]
fn build_reports_geometry_errors() {
    let base = || {
        one_set_cache(
            0,
            0,
            WriteHitPolicy::WriteBack,
            WriteMissPolicy::WriteAllocate,
            ReplacementPolicy::LRU,
        )
    };
    assert_eq!(base().build().err(), Some(SimError::TooManyZeroGeometryValues));
    let o = base().size(1000).associativity(2);
    assert_eq!(
        o.build().err(),
        Some(SimError::NotPowerOfTwo(cache_simulator::error::GeometryField::Size, 1000))
    );
    let o = base().size(1024).associativity(2).set_num(4);
    assert_eq!(o.build().err(), Some(SimError::InconsistentGeometry));
}

#[test]
fn build_completes_the_geometry() {
    let c = build(
        one_set_cache(
            0,
            8,
            WriteHitPolicy::WriteBack,
            WriteMissPolicy::WriteAllocate,
            ReplacementPolicy::LRU,
        )
        .set_num(64),
    );
    assert_eq!(c.size(), 32768);
    assert_eq!(c.set_num(), 64);
    assert_eq!(c.associativity(), 8);
    assert_eq!(c.block_size(), 64);
    assert_eq!(c.layer(), 1);
    assert!(c.get_stats().access_counter == 0);
}

#[test]
fn build_would_panic_on_a_zero_derived_value() {
    let o = one_set_cache(
        64,
        8,
        WriteHitPolicy::WriteBack,
        WriteMissPolicy::WriteAllocate,
        ReplacementPolicy::LRU,
    );
    // 64 bytes cannot hold 8 ways of 64-byte blocks: the set number comes out zero.
    assert!(o.build_would_panic());
    let o = one_set_cache(
        128,
        2,
        WriteHitPolicy::WriteBack,
        WriteMissPolicy::WriteAllocate,
        ReplacementPolicy::LRU,
    );
    assert!(!o.build_would_panic());
}

#[test]
fn headroom_shrinks_with_use() {
    let c = build(one_set_cache(
        128,
        2,
        WriteHitPolicy::WriteBack,
        WriteMissPolicy::WriteAllocate,
        ReplacementPolicy::LRU,
    ));
    assert!(c.has_headroom(1_000_000));
    assert!(!c.has_headroom(usize::MAX));
    let top = Storage::Cache(Box::new(c));
    assert!(top.has_headroom(1));
    assert!(!top.has_headroom(usize::MAX / 2));
}

#[test]
fn miss_time_is_own_latency_plus_time_added_below() {
    let mut c = build(one_set_cache(
        128,
        2,
        WriteHitPolicy::WriteBack,
        WriteMissPolicy::WriteAllocate,
        ReplacementPolicy::LRU,
    ));
    for (addr, read) in [(0x0u64, false), (0x40, false), (0x80, true), (0x0, true), (0xc0, false)] {
        let before = c.get_lower().unwrap().get_stats().access_time;
        let (_, time) = c.handle_request(addr, 1, read);
        let after = c.get_lower().unwrap().get_stats().access_time;
        assert_eq!(time, 2 + (after - before));
    }
}

#[test]
fn requests_leave_other_sets_alone() {
    let mut c = build(
        one_set_cache(
            0,
            1,
            WriteHitPolicy::WriteBack,
            WriteMissPolicy::WriteAllocate,
            ReplacementPolicy::LRU,
        )
        .set_num(4),
    );
    // Addresses 0x1 and 0x2 fall in different sets (the set index is taken from the low
    // address bits), so filling one leaves the other cached.
    assert!(!c.handle_request(0x1, 1, true).0);
    assert!(!c.handle_request(0x2, 1, true).0);
    assert!(c.handle_request(0x1, 1, true).0);
    assert!(c.handle_request(0x2, 1, true).0);
}

fn zero_latency_cache(wh: WriteHitPolicy) -> Cache {
    let o = CacheOptions::new()
        .size(256)
        .associativity(2)
        .block_size(64)
        .write_hit_policy(wh)
        .write_miss_policy(WriteMissPolicy::WriteAllocate)
        .replacement_policy(ReplacementPolicy::LRU)
        .lower(memory());
    build(o)
}

#[test]
fn read_miss_costs_one_memory_access() {
    let mut c = zero_latency_cache(WriteHitPolicy::WriteBack);
    assert_eq!(c.handle_request(0x40, 1, true), (false, 110));
    let s = c.get_stats();
    assert_eq!((s.miss_num, s.fetch_num, s.replace_num, s.access_time), (1, 1, 0, 110));
    assert_eq!(lower_accesses(&c), 1);
}

#[test]
fn write_through_hit_pays_the_memory_write() {
    let mut c = zero_latency_cache(WriteHitPolicy::WriteThrough);
    c.handle_request(0x40, 1, true);
    assert_eq!(c.handle_request(0x40, 1, false), (true, 110));
    assert_eq!(lower_accesses(&c), 2);
}
