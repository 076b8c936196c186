use cache_simulator::bypass::Bypasser;
use cache_simulator::cache::{CacheLine, ReplacementPolicy, Storage, WriteHitPolicy, WriteMissPolicy};
use cache_simulator::error::{GeometryField, SimError};
use cache_simulator::geometry::{init_cache_config, is_power_of_two, log2_of_power_of_two};
use cache_simulator::hierarchy::{
    build_hierarchy, cache_options, order_by_layer, run_trace, CacheConfig, MemoryConfig,
};
use cache_simulator::memory::Page;
use cache_simulator::prefetch::{PrefetchStream, PrefetchStreamManager};
use cache_simulator::replacement::{clock_victim, lru_victim, pseudo_lru_victim};
use cache_simulator::storage::{EmptyStorage, StorageLatency, StorageStats};
use cache_simulator::trace::{Trace, TraceOp};

fn ops_of(t: &mut Trace) -> Vec<TraceOp> {
    let mut v = Vec::new();
    while let Some(op) = t.next() {
        v.push(op);
    }
    v
}

fn parsed(s: &str) -> Result<Vec<TraceOp>, SimError> {
    Trace::parse(s).map(|mut t| ops_of(&mut t))
}

#[test]
fn trace_reads_accesses_line_by_line() {
    assert_eq!(
        parsed("r 0x10\nw 20\n"),
        Ok(vec![TraceOp::Read(0x10), TraceOp::Write(0x20)])
    );
    assert_eq!(
        parsed("r 0x10\r\nw ff"),
        Ok(vec![TraceOp::Read(0x10), TraceOp::Write(0xff)])
    );
    assert_eq!(parsed("  r\t+1f  trailing words\n"), Ok(vec![TraceOp::Read(0x1f)]));
    assert_eq!(parsed("w 12x34"), Ok(vec![TraceOp::Write(0x34)]));
    assert_eq!(parsed("r ffffffffffffffff"), Ok(vec![TraceOp::Read(u64::MAX)]));
    assert_eq!(parsed(""), Ok(vec![]));
}

#[test]
fn trace_rejects_malformed_lines() {
    for bad in [
        "x 10",
        "r",
        "r zz",
        "r 0x",
        "\n",
        "r 10\n\nw 20",
        "r 10000000000000000",
        "rw 10",
        "r 0X10",
        "r -1",
        "r +",
    ] {
        assert_eq!(parsed(bad), Err(SimError::InvalidTrace), "{:?}", bad);
    }
}

#[test]
fn trace_next_stops_at_the_end() {
    let mut t = Trace::parse("r 1\nw 2\n").unwrap();
    assert_eq!(t.len(), 2);
    assert_eq!(t.next(), Some(TraceOp::Read(1)));
    assert_eq!(t.next(), Some(TraceOp::Write(2)));
    assert_eq!(t.current_position(), 2);
    assert_eq!(t.next(), None);
    assert_eq!(t.current_position(), 3);
    assert_eq!(t.next(), None);
    assert_eq!(t.current_position(), 4);
}

#[test]
fn geometry_derives_the_missing_value() {
    assert_eq!(init_cache_config(0, 64, 8, 64), Ok((32768, 64, 8, 64)));
    assert_eq!(init_cache_config(32768, 0, 8, 64), Ok((32768, 64, 8, 64)));
    assert_eq!(init_cache_config(32768, 64, 0, 64), Ok((32768, 64, 8, 64)));
    assert_eq!(init_cache_config(32768, 64, 8, 0), Ok((32768, 64, 8, 64)));
    assert_eq!(init_cache_config(32768, 64, 8, 64), Ok((32768, 64, 8, 64)));
}

#[test]
fn geometry_errors() {
    assert_eq!(init_cache_config(0, 0, 8, 64), Err(SimError::TooManyZeroGeometryValues));
    assert_eq!(
        init_cache_config(100, 0, 8, 64),
        Err(SimError::NotPowerOfTwo(GeometryField::Size, 100))
    );
    assert_eq!(
        init_cache_config(0, 3, 8, 64),
        Err(SimError::NotPowerOfTwo(GeometryField::SetNum, 3))
    );
    assert_eq!(
        init_cache_config(0, 64, 6, 64),
        Err(SimError::NotPowerOfTwo(GeometryField::Associativity, 6))
    );
    assert_eq!(
        init_cache_config(0, 64, 8, 48),
        Err(SimError::NotPowerOfTwo(GeometryField::BlockSize, 48))
    );
    assert_eq!(init_cache_config(1024, 64, 8, 64), Err(SimError::InconsistentGeometry));
}

#[test]
fn powers_of_two() {
    assert!(!is_power_of_two(0));
    assert!(is_power_of_two(1));
    assert!(!is_power_of_two(6));
    assert!(is_power_of_two(1 << 40));
    assert_eq!(log2_of_power_of_two(1), 0);
    assert_eq!(log2_of_power_of_two(64), 6);
}

fn line(ts: u64, used: bool) -> CacheLine {
    let mut l = CacheLine::new(4);
    l.valid = true;
    l.timestamp = ts;
    l.used = used;
    l
}

#[test]
fn new_line_is_blank() {
    let l = CacheLine::new(8);
    assert!(!l.valid && !l.dirty && !l.used);
    assert_eq!(l.data, vec![0u8; 8]);
    assert_eq!(Page::empty().0.len(), 4096);
    assert!(Page::empty().0.iter().all(|b| *b == 0));
}

#[test]
fn lru_picks_the_first_oldest_line() {
    let lines = vec![line(5, true), line(3, true), line(7, true), line(3, true)];
    assert_eq!(lru_victim(&lines, 10), 1);
}

#[test]
fn lru_falls_back_to_line_zero_when_no_use_is_older() {
    let lines = vec![line(5, true), line(3, true), line(7, true)];
    assert_eq!(lru_victim(&lines, 3), 0);
    assert_eq!(lru_victim(&lines, 4), 1);
}

#[test]
fn error_messages() {
    assert_eq!(SimError::MissingLower.message(), "Must give lower storage");
    assert_eq!(SimError::InvalidTrace.message(), "Invalid trace");
    assert_eq!(SimError::NotPowerOfTwo(GeometryField::BlockSize, 48).message(), "is not power of two");
    assert_eq!(GeometryField::SetNum.name(), "set_num");
}

#[test]
fn pseudo_lru_walks_and_flips_the_tree() {
    let mut tree = vec![false, false, false];
    assert_eq!(pseudo_lru_victim(&mut tree, 4), 3);
    assert_eq!(tree, vec![true, false, true]);
    assert_eq!(pseudo_lru_victim(&mut tree, 4), 1);
    assert_eq!(pseudo_lru_victim(&mut tree, 4), 2);
    assert_eq!(pseudo_lru_victim(&mut tree, 4), 0);
    let mut single: Vec<bool> = vec![];
    assert_eq!(pseudo_lru_victim(&mut single, 1), 0);
}

#[test]
fn clock_clears_reference_bits_until_a_free_line() {
    let mut lines = vec![line(0, true), line(0, false), line(0, true)];
    assert_eq!(clock_victim(&mut lines, 0), 1);
    assert!(!lines[0].used);
    assert!(lines[2].used);
    let mut all_used = vec![line(0, true), line(0, true)];
    assert_eq!(clock_victim(&mut all_used, 1), 1);
    assert!(!all_used[0].used && !all_used[1].used);
}

#[test]
fn stride_detection_follows_the_history() {
    let mut m = PrefetchStreamManager::new(8, 4);
    assert_eq!(m.record_addr(0x100), -1);
    assert_eq!(m.record_addr(0x140), 64);
    assert_eq!(m.record_addr(0x180), 64);
    assert_eq!(m.record_addr(0x1000), -1);
    assert_eq!(m.record_addr(0xff0), -16);
    assert_eq!(m.access_history.len(), 5);
}

#[test]
fn full_manager_evicts_the_stalest_stream() {
    let mut m = PrefetchStreamManager::new(2, 4);
    let s = m.get_stream(64, 4, 1);
    assert!(s.buffer.is_empty());
    s.buffer.push_back(line(1, false));
    let s = m.get_stream(-8, 4, 2);
    s.buffer.push_back(line(2, false));
    // Handing out a known stride keeps the set of streams.
    let s = m.get_stream(64, 4, 3);
    assert_eq!(s.buffer.len(), 1);
    assert_eq!(m.streams.len(), 2);
    let s = m.get_stream(32, 4, 4);
    assert_eq!(s.stride, 32);
    assert_eq!(m.streams.len(), 2);
    assert!(!m.streams.contains_key(&64));
    assert!(m.streams.contains_key(&-8));
    assert!(m.streams.contains_key(&32));
}

#[test]
fn streams_answer_for_the_blocks_they_hold() {
    let mut s = PrefetchStream::new(64, 4);
    let mut l = CacheLine::new(4);
    l.tag = 0x40;
    l.set = 1;
    s.buffer.push_back(l);
    assert!(s.check_hit(0x40, 1).is_some());
    assert!(s.check_hit(0x40, 0).is_none());
    let mut m = PrefetchStreamManager::new(8, 4);
    assert!(m.check_hit(0x40, 1).is_none());
    m.streams.insert(64, s);
    assert!(m.check_hit(0x40, 1).is_some());
}

#[test]
fn bypass_by_size_or_pattern() {
    let b = Bypasser::new(64, vec![0xf000]);
    assert!(b.should_bypass(0x0, 128));
    assert!(b.should_bypass(0xf123, 1));
    assert!(!b.should_bypass(0x0f00, 64));
}

#[test]
fn latency_validation_and_defaults() {
    assert_eq!(
        StorageLatency { hit_latency: 0, bus_latency: 5 }.validate(),
        Err(SimError::IdealStorage)
    );
    assert_eq!(
        StorageLatency { hit_latency: 5, bus_latency: 0 }.validate(),
        Err(SimError::IdealStorage)
    );
    assert_eq!(StorageLatency { hit_latency: 1, bus_latency: 1 }.validate(), Ok(()));
    let d = StorageLatency::default();
    assert_eq!((d.hit_latency, d.bus_latency), (0, 0));
    let s = StorageStats::default();
    assert_eq!(
        (s.access_counter, s.miss_num, s.access_time, s.replace_num, s.fetch_num, s.prefetch_num, s.prefetch_hit),
        (0, 0, 0, 0, 0, 0, 0)
    );
    assert!(EmptyStorage {}.get_lower().is_none());
}

fn cache_config(layer: usize, size: usize) -> CacheConfig {
    CacheConfig {
        layer,
        hit_latency: layer,
        bus_latency: 1,
        size: Some(size),
        associativity: Some(2),
        set_num: None,
        block_size: Some(64),
        write_hit_policy: WriteHitPolicy::WriteBack,
        write_miss_policy: WriteMissPolicy::WriteAllocate,
        replacement_policy: ReplacementPolicy::LRU,
        prefetch: false,
        max_streams: 8,
        stream_buffer_depth: 4,
    }
}

#[test]
fn layers_must_be_numbered_from_one() {
    let ordered = order_by_layer(&vec![cache_config(2, 512), cache_config(1, 128)]).unwrap();
    assert_eq!(ordered.iter().map(|c| c.layer).collect::<Vec<_>>(), vec![1, 2]);
    assert_eq!(ordered[1].size, Some(512));
    assert_eq!(
        order_by_layer(&vec![cache_config(1, 128), cache_config(3, 512)]).err(),
        Some(SimError::LayerNumbering)
    );
    assert_eq!(
        order_by_layer(&vec![cache_config(1, 128), cache_config(1, 512)]).err(),
        Some(SimError::LayerNumbering)
    );
    assert_eq!(order_by_layer(&vec![cache_config(0, 128)]).err(), Some(SimError::LayerNumbering));
    assert!(order_by_layer(&vec![]).unwrap().is_empty());
}

#[test]
fn config_entry_becomes_cache_options() {
    let o = cache_options(&cache_config(2, 512));
    assert_eq!(o.size, 512);
    assert_eq!(o.set_num, 0);
    assert_eq!(o.associativity, 2);
    assert_eq!(o.block_size, 64);
    assert_eq!(o.layer, 2);
    assert_eq!(o.latency.hit_latency, 2);
    assert!(o.lower.is_none());
    assert!(!o.prefetch);
}

#[test]
fn hierarchy_is_built_and_driven_by_a_trace() {
    let memory = MemoryConfig { hit_latency: 100, bus_latency: 10 };
    let caches = vec![cache_config(2, 512), cache_config(1, 128)];
    let mut top = build_hierarchy(&memory, &caches).unwrap();
    let l1 = match &top {
        Storage::Cache(c) => c,
        Storage::Memory(_) => panic!("expected a cache on top"),
    };
    assert_eq!(l1.layer(), 1);
    assert_eq!(l1.size(), 128);
    let l2 = match l1.get_lower().unwrap() {
        Storage::Cache(c) => c,
        Storage::Memory(_) => panic!("expected a second cache"),
    };
    assert_eq!(l2.layer(), 2);
    assert_eq!(l2.set_num(), 4);
    assert!(matches!(l2.get_lower(), Some(Storage::Memory(_))));

    let mut trace = Trace::parse("r 0x0\nr 0x0\nw 0x40\n").unwrap();
    assert!(top.has_headroom(trace.len()));
    run_trace(&mut top, &mut trace);
    assert_eq!(trace.next(), None);
    let s = top.get_stats();
    assert_eq!(s.access_counter, 3);
    assert_eq!(s.miss_num, 2);
    let l2_stats = top.get_lower().unwrap().get_stats();
    assert_eq!(l2_stats.access_counter, 2);
}

#[test]
fn hierarchy_errors() {
    let memory = MemoryConfig { hit_latency: 100, bus_latency: 10 };
    let bad_layers = vec![cache_config(2, 512)];
    assert_eq!(build_hierarchy(&memory, &bad_layers).err(), Some(SimError::LayerNumbering));
    // The deepest cache is built first, so its error is the one reported.
    let mut l1 = cache_config(1, 100);
    l1.write_hit_policy = WriteHitPolicy::Unset;
    let mut l2 = cache_config(2, 512);
    l2.replacement_policy = ReplacementPolicy::Unset;
    assert_eq!(
        build_hierarchy(&memory, &vec![l1, l2]).err(),
        Some(SimError::MissingReplacementPolicy)
    );
    assert_eq!(
        build_hierarchy(&memory, &vec![l1, cache_config(2, 512)]).err(),
        Some(SimError::MissingWriteHitPolicy)
    );
    let top = build_hierarchy(&memory, &vec![]).unwrap();
    assert!(matches!(top, Storage::Memory(_)));
    assert_eq!(top.get_latency().hit_latency, 100);
}
