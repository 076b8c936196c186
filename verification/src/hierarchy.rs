use vstd::prelude::*;

use vstd::relations::injective_on;
use vstd::set_lib::{lemma_int_range, lemma_map_size, lemma_subset_equality, set_int_range};

use crate::cache::{
    lemma_charging_levels, lemma_headroom_monotone, lemma_level_views, lemma_memory_level, lemma_stack_cache,
    CacheOptions, ReplacementPolicy, Storage, WriteHitPolicy, WriteMissPolicy,
};
use crate::error::SimError;
use crate::memory::{Memory, MemoryOptions, Page};
use crate::storage::{StorageLatency, StorageStats};
use crate::trace::{Trace, TraceOp};

verus! {

/// The latencies of main memory, as a configuration gives them.
#[derive(Debug, Clone, Copy)]
pub struct MemoryConfig {
    pub hit_latency: usize,
    pub bus_latency: usize,
}

/// One cache of a configuration: its layer (1 for L1), latencies, the parts of its
/// geometry that are given, its policies and its prefetch settings.
#[derive(Debug, Clone, Copy)]
pub struct CacheConfig {
    pub layer: usize,
    pub hit_latency: usize,
    pub bus_latency: usize,
    pub size: Option<usize>,
    pub associativity: Option<usize>,
    pub set_num: Option<usize>,
    pub block_size: Option<usize>,
    pub write_hit_policy: WriteHitPolicy,
    pub write_miss_policy: WriteMissPolicy,
    pub replacement_policy: ReplacementPolicy,
    pub prefetch: bool,
    pub max_streams: usize,
    pub stream_buffer_depth: usize,
}

/// The layers of `caches` are 1, 2, ..., n in some order: each lies in `1..=n` and no two
/// are equal.
pub open spec fn layers_numbered(caches: Seq<CacheConfig>) -> bool {
    &&& forall|j: int| 0 <= j < caches.len() ==> 1 <= #[trigger] caches[j].layer <= caches.len()
    &&& forall|i: int, j: int|
        0 <= i < j < caches.len() ==> #[trigger] caches[i].layer != #[trigger] caches[j].layer
}

/// Some cache of `caches` has layer `t`.
pub open spec fn layer_present(caches: Seq<CacheConfig>, t: int) -> bool {
    exists|j: int| 0 <= j < caches.len() && #[trigger] caches[j].layer == t
}

/// With the layers numbered 1..=n, every number in that range is the layer of some cache.
proof fn lemma_every_layer_present(caches: Seq<CacheConfig>, t: int)
    requires
        layers_numbered(caches),
        1 <= t <= caches.len(),
    ensures
        layer_present(caches, t),
{
    let n = caches.len() as int;
    let idx = set_int_range(0, n);
    let f = |j: int| caches[j].layer as int;
    lemma_int_range(0, n);
    lemma_int_range(1, n + 1);
    assert(injective_on(f, idx)) by {
        assert forall|x1: int, x2: int|
            idx.contains(x1) && idx.contains(x2) && #[trigger] f(x1) == #[trigger] f(x2) implies x1
            == x2 by {
            if x1 < x2 {
                assert(caches[x1].layer != caches[x2].layer);
            } else if x2 < x1 {
                assert(caches[x2].layer != caches[x1].layer);
            }
        }
    }
    let layers = idx.map(f);
    lemma_map_size(idx, layers, f);
    assert(layers.subset_of(set_int_range(1, n + 1))) by {
        assert forall|v: int| layers.contains(v) implies set_int_range(1, n + 1).contains(v) by {
            let j = choose|j: int| idx.contains(j) && v == f(j);
            assert(1 <= caches[j].layer <= n);
        }
    }
    lemma_subset_equality(layers, set_int_range(1, n + 1));
    assert(set_int_range(1, n + 1).contains(t));
    assert(layers.contains(t));
    let j = choose|j: int| idx.contains(j) && t == f(j);
    assert(caches[j].layer == t);
}

/// The caches ordered by layer, L1 first; fails unless the layers are 1, 2, ..., n.
pub fn order_by_layer(caches: &Vec<CacheConfig>) -> (r: Result<Vec<CacheConfig>, SimError>)
    ensures
        r is Ok <==> layers_numbered(caches@),
        r matches Err(e) ==> e == SimError::LayerNumbering,
        r matches Ok(v) ==> {
            &&& v@.len() == caches@.len()
            &&& forall|j: int|
                0 <= j < caches@.len() ==> v@[#[trigger] caches@[j].layer - 1] == caches@[j]
        },
{
    let n = caches.len();
    let mut slots: Vec<Option<CacheConfig>> = Vec::new();
    for t in 0..n
        invariant
            slots@.len() == t,
            forall|u: int| 0 <= u < t ==> slots@[u] is None,
    {
        slots.push(None);
    }
    for k in 0..n
        invariant
            n == caches@.len(),
            slots@.len() == n,
            forall|j: int|
                0 <= j < k ==> 1 <= #[trigger] caches@[j].layer <= n && slots@[caches@[j].layer
                    - 1] == Some(caches@[j]),
            forall|i: int, j: int|
                0 <= i < j < k ==> #[trigger] caches@[i].layer != #[trigger] caches@[j].layer,
            forall|u: int|
                0 <= u < n ==> (#[trigger] slots@[u] is Some <==> exists|j: int|
                    0 <= j < k && caches@[j].layer == u + 1),
    {
        let c = caches[k];
        if c.layer < 1 || c.layer > n {
            return Err(SimError::LayerNumbering);
        }
        if slots[c.layer - 1].is_some() {
            proof {
                let j = choose|j: int| 0 <= j < k && caches@[j].layer == c.layer;
                assert(caches@[j].layer == caches@[k as int].layer);
            }
            return Err(SimError::LayerNumbering);
        }
        proof {
            assert forall|j: int| 0 <= j < k implies #[trigger] caches@[j].layer != caches@[k as int].layer by {
                if caches@[j].layer == c.layer {
                    assert(slots@[c.layer - 1] is Some);
                }
            }
        }
        slots.set(c.layer - 1, Some(c));
    }
    let mut ordered: Vec<CacheConfig> = Vec::new();
    for t in 0..n
        invariant
            n == caches@.len(),
            slots@.len() == n,
            layers_numbered(caches@),
            ordered@.len() == t,
            forall|j: int|
                0 <= j < n ==> slots@[#[trigger] caches@[j].layer - 1] == Some(caches@[j]),
            forall|u: int| 0 <= u < t ==> slots@[u] == Some(#[trigger] ordered@[u]),
    {
        proof {
            lemma_every_layer_present(caches@, t + 1);
        }
        match slots[t] {
            Some(c) => ordered.push(c),
            None => {
                proof {
                    let j = choose|j: int| 0 <= j < n && #[trigger] caches@[j].layer == t + 1;
                    assert(slots@[caches@[j].layer - 1] == Some(caches@[j]));
                }
                return Err(SimError::LayerNumbering);
            },
        }
    }
    proof {
        assert forall|j: int| 0 <= j < n implies ordered@[#[trigger] caches@[j].layer - 1]
            == caches@[j] by {
            assert(slots@[caches@[j].layer - 1] == Some(caches@[j]));
        }
    }
    Ok(ordered)
}

/// The cache options a configuration entry stands for: its policies, latencies, layer and
/// the geometry values it gives (the others left at zero, to be completed), with zero
/// counters and no lower level.  The entry's prefetch settings are not applied: the
/// options keep prefetching off, with the default stream limits.
pub open spec fn options_of(c: CacheConfig) -> CacheOptions {
    CacheOptions {
        size: match c.size {
            Some(v) => v,
            None => 0,
        },
        associativity: match c.associativity {
            Some(v) => v,
            None => 0,
        },
        set_num: match c.set_num {
            Some(v) => v,
            None => 0,
        },
        block_size: match c.block_size {
            Some(v) => v,
            None => 0,
        },
        write_hit_policy: c.write_hit_policy,
        write_miss_policy: c.write_miss_policy,
        replacement_policy: c.replacement_policy,
        lower: None,
        latency: StorageLatency { hit_latency: c.hit_latency, bus_latency: c.bus_latency },
        stats: StorageStats {
            access_counter: 0,
            miss_num: 0,
            access_time: 0,
            replace_num: 0,
            fetch_num: 0,
            prefetch_num: 0,
            prefetch_hit: 0,
        },
        layer: c.layer,
        max_streams: 8,
        stream_buffer_depth: 4,
        prefetch: false,
        bypass: false,
    }
}

/// `o` with `lower` as its lower level.
pub open spec fn over(o: CacheOptions, lower: Storage) -> CacheOptions {
    CacheOptions { lower: Some(lower), ..o }
}

/// The error building the cache of `c` reports (whatever level lies below it).
pub open spec fn config_error(c: CacheConfig) -> Option<SimError> {
    over(options_of(c), arbitrary()).build_error()
}

/// Building the cache of `c` would fail on arithmetic or an unusable geometry.
pub open spec fn config_panics(c: CacheConfig) -> bool {
    over(options_of(c), arbitrary()).build_panics()
}

/// Building the hierarchy from the bottom up reaches a cache whose build cannot complete:
/// the layers are numbered, and some cache cannot be built while every cache below it
/// builds.
pub open spec fn hierarchy_panics(caches: Seq<CacheConfig>) -> bool {
    &&& layers_numbered(caches)
    &&& exists|k: int|
        0 <= k < caches.len() && #[trigger] config_panics(caches[k]) && forall|m: int|
            0 <= m < caches.len() && caches[m].layer > caches[k].layer ==> (#[trigger] config_error(
                caches[m],
            )) is None
}

/// The error building the hierarchy reports once the layers are numbered: that of the
/// deepest cache that cannot be built, if any.
pub open spec fn deepest_error(caches: Seq<CacheConfig>, e: SimError) -> bool {
    exists|k: int|
        0 <= k < caches.len() && #[trigger] config_error(caches[k]) == Some(e) && forall|m: int|
            0 <= m < caches.len() && caches[m].layer > caches[k].layer ==> (#[trigger] config_error(
                caches[m],
            )) is None
}

/// `m` is main memory as `config` describes it, before any request.
pub open spec fn fresh_memory(m: Memory, config: MemoryConfig) -> bool {
    &&& m.latency_spec() == (StorageLatency {
        hit_latency: config.hit_latency,
        bus_latency: config.bus_latency,
    })
    &&& m.stats_spec().is_zero()
    &&& m.pages() == Map::<u64, Page>::empty()
}

/// `s` is the hierarchy of `caches` (their layers numbered) over the memory of `memory`:
/// the cache of layer `l` stands `l - 1` levels below the top, built from its entry over
/// the level below it, and main memory stands below the last cache.
pub open spec fn is_hierarchy(s: Storage, memory: MemoryConfig, caches: Seq<CacheConfig>) -> bool {
    &&& s.wf()
    &&& s.depth() == caches.len()
    &&& forall|j: int|
        0 <= j < caches.len() ==> (s.level((#[trigger] caches[j].layer - 1) as nat) matches Storage::Cache(
            c,
        ) && c.built_from(over(options_of(caches[j]), s.level(caches[j].layer as nat))))
    &&& s.level(caches.len()) matches Storage::Memory(m) && fresh_memory(m, memory)
}

/// The cache options of a configuration entry (see `options_of`).
pub fn cache_options(c: &CacheConfig) -> (o: CacheOptions)
    ensures
        o == options_of(*c),
        o.latency.hit_latency == c.hit_latency,
        o.latency.bus_latency == c.bus_latency,
        o.write_hit_policy == c.write_hit_policy,
        o.write_miss_policy == c.write_miss_policy,
        o.replacement_policy == c.replacement_policy,
        o.layer == c.layer,
        c.size matches Some(v) ==> o.size == v,
        c.associativity matches Some(v) ==> o.associativity == v,
        c.set_num matches Some(v) ==> o.set_num == v,
        c.block_size matches Some(v) ==> o.block_size == v,
        o.lower is None,
        !o.prefetch,
        o.stats.access_counter == 0 && o.stats.miss_num == 0 && o.stats.access_time == 0,
{
    let mut o = CacheOptions::new().write_hit_policy(c.write_hit_policy).write_miss_policy(
        c.write_miss_policy,
    ).replacement_policy(c.replacement_policy).latency(
        StorageLatency { hit_latency: c.hit_latency, bus_latency: c.bus_latency },
    ).stats(StorageStats::default()).layer(c.layer);
    if let Some(size) = c.size {
        o = o.size(size);
    }
    if let Some(associativity) = c.associativity {
        o = o.associativity(associativity);
    }
    if let Some(set_num) = c.set_num {
        o = o.set_num(set_num);
    }
    if let Some(block_size) = c.block_size {
        o = o.block_size(block_size);
    }
    o
}

/// Builds the hierarchy a configuration describes: main memory, then the caches ordered
/// by layer, each built over the one below it from the last layer up.  Fails with
/// `LayerNumbering` unless the layers are 1, 2, ..., n, and otherwise with the error of
/// the deepest cache that cannot be built.
pub fn build_hierarchy(memory: &MemoryConfig, caches: &Vec<CacheConfig>) -> (r: Result<
    Storage,
    SimError,
>)
    requires
        !hierarchy_panics(caches@),
    ensures
        !layers_numbered(caches@) ==> r == Err::<Storage, SimError>(SimError::LayerNumbering),
        layers_numbered(caches@) ==> {
            &&& r is Err <==> exists|k: int|
                0 <= k < caches@.len() && (#[trigger] config_error(caches@[k])) is Some
            &&& r matches Err(e) ==> deepest_error(caches@, e)
            &&& r matches Ok(s) ==> is_hierarchy(s, *memory, caches@)
        },
{
    let built = MemoryOptions::new().latency(
        StorageLatency { hit_latency: memory.hit_latency, bus_latency: memory.bus_latency },
    ).stats(StorageStats::default()).build();
    let m = match built {
        Ok(m) => m,
        Err(e) => {
            return Err(e);
        },
    };
    let ordered = match order_by_layer(caches) {
        Ok(v) => v,
        Err(e) => {
            return Err(e);
        },
    };
    let n = ordered.len();
    let ghost cs = caches@;
    proof {
        lemma_memory_level(m);
        assert forall|t: int| 1 <= t <= n implies #[trigger] layer_present(cs, t) by {
            lemma_every_layer_present(cs, t);
        }
    }
    let mut cur = Storage::Memory(m);
    let mut t = n;
    while t > 0
        invariant
            n == cs.len(),
            cs == caches@,
            layers_numbered(cs),
            ordered@.len() == n,
            t <= n,
            forall|j: int| 0 <= j < n ==> ordered@[#[trigger] cs[j].layer - 1] == cs[j],
            forall|u: int| 1 <= u <= n ==> #[trigger] layer_present(cs, u),
            !hierarchy_panics(cs),
            forall|j: int| 0 <= j < n && cs[j].layer > t ==> (#[trigger] config_error(cs[j])) is None,
            cur.wf(),
            cur.depth() == n - t,
            forall|j: int|
                0 <= j < n && cs[j].layer > t ==> (cur.level((#[trigger] cs[j].layer - 1 - t) as nat) matches Storage::Cache(
                    c,
                ) && c.built_from(over(options_of(cs[j]), cur.level((cs[j].layer - t) as nat)))),
            cur.level((n - t) as nat) matches Storage::Memory(mm) && fresh_memory(mm, *memory),
        decreases t,
    {
        let cfg = ordered[t - 1];
        assert(layer_present(cs, t as int));
        let ghost k = choose|j: int| 0 <= j < n && #[trigger] cs[j].layer == t;
        assert(cs[k] == cfg);
        let options = cache_options(&cfg).lower(cur);
        let ghost lower = options.lower->Some_0;
        if options.build_would_panic() {
            proof {
                assert(options.build_panics() == config_panics(cs[k]));
                assert(hierarchy_panics(cs));
            }
        }
        assert(options.build_panics() == config_panics(cs[k]));
        assert(!options.build_panics()) by {
            if config_panics(cs[k]) {
                assert(hierarchy_panics(cs));
            }
        }
        let cache = match options.build() {
            Ok(c) => c,
            Err(e) => {
                proof {
                    assert(options.build_error() == config_error(cs[k]));
                    assert(deepest_error(cs, e));
                }
                return Err(e);
            },
        };
        proof {
            assert(options.build_error() == config_error(cs[k]));
            lemma_stack_cache(cache);
        }
        let ghost old_cur = lower;
        cur = Storage::Cache(Box::new(cache));
        proof {
            assert forall|u: nat| #[trigger] cur.level(u + 1) == old_cur.level(u) by {
            }
            assert forall|j: int|
                0 <= j < n && cs[j].layer > t - 1 implies (cur.level((#[trigger] cs[j].layer - 1 - (t - 1)) as nat) matches Storage::Cache(
                    c,
                ) && c.built_from(over(options_of(cs[j]), cur.level((cs[j].layer - (t - 1)) as nat)))) by {
                if cs[j].layer == t {
                    assert(j == k);
                } else {
                    assert(cur.level((cs[j].layer - 1 - (t - 1)) as nat) == old_cur.level(
                        (cs[j].layer - 1 - t) as nat,
                    ));
                    assert(cur.level((cs[j].layer - (t - 1)) as nat) == old_cur.level(
                        (cs[j].layer - t) as nat,
                    ));
                }
            }
            assert(cur.level((n - (t - 1)) as nat) == old_cur.level((n - t) as nat));
        }
        t = t - 1;
    }
    proof {
        assert forall|j: int| 0 <= j < n implies (cur.level((#[trigger] cs[j].layer - 1) as nat) matches Storage::Cache(
            c,
        ) && c.built_from(over(options_of(cs[j]), cur.level(cs[j].layer as nat)))) by {
            assert(cs[j].layer > 0);
        }
        assert forall|k: int| 0 <= k < n implies (#[trigger] config_error(cs[k])) is None by {
            assert(cs[k].layer > 0);
        }
    }
    Ok(cur)
}

/// Whether `build_hierarchy` would reach a cache it cannot build (see
/// `hierarchy_panics`), found by trying the caches from the last layer up over a
/// stand-in memory.
pub fn hierarchy_would_panic(caches: &Vec<CacheConfig>) -> (r: bool)
    ensures
        r == hierarchy_panics(caches@),
{
    let ordered = match order_by_layer(caches) {
        Ok(v) => v,
        Err(_) => {
            return false;
        },
    };
    let n = ordered.len();
    let ghost cs = caches@;
    proof {
        assert forall|t: int| 1 <= t <= n implies #[trigger] layer_present(cs, t) by {
            lemma_every_layer_present(cs, t);
        }
    }
    let mut t = n;
    while t > 0
        invariant
            n == cs.len(),
            cs == caches@,
            layers_numbered(cs),
            ordered@.len() == n,
            t <= n,
            forall|j: int| 0 <= j < n ==> ordered@[#[trigger] cs[j].layer - 1] == cs[j],
            forall|u: int| 1 <= u <= n ==> #[trigger] layer_present(cs, u),
            forall|j: int|
                0 <= j < n && cs[j].layer > t ==> (#[trigger] config_error(cs[j])) is None
                    && !config_panics(cs[j]),
        decreases t,
    {
        let cfg = ordered[t - 1];
        assert(layer_present(cs, t as int));
        let ghost k = choose|j: int| 0 <= j < n && #[trigger] cs[j].layer == t;
        assert(cs[k] == cfg);
        let stand_in = match MemoryOptions::new().build() {
            Ok(m) => m,
            Err(_) => {
                return false;
            },
        };
        proof {
            lemma_memory_level(stand_in);
        }
        let options = cache_options(&cfg).lower(Storage::Memory(stand_in));
        assert(options.build_panics() == config_panics(cs[k]));
        assert(options.build_error() == config_error(cs[k]));
        if options.build_would_panic() {
            proof {
                assert(hierarchy_panics(cs));
            }
            return true;
        }
        if options.build().is_err() {
            proof {
                assert forall|i: int|
                    0 <= i < n && #[trigger] config_panics(cs[i]) implies exists|m: int|
                    0 <= m < n && cs[m].layer > cs[i].layer && (#[trigger] config_error(
                        cs[m],
                    )) is Some by {
                    if cs[i].layer > t {
                        assert(config_error(cs[i]) is None);
                    } else if cs[i].layer == t && i != k {
                        if i < k {
                            assert(cs[i].layer != cs[k].layer);
                        } else {
                            assert(cs[k].layer != cs[i].layer);
                        }
                    }
                    assert(cs[k].layer > cs[i].layer);
                }
            }
            return false;
        }
        t = t - 1;
    }
    proof {
        assert forall|i: int| 0 <= i < n implies !#[trigger] config_panics(cs[i]) by {
            assert(cs[i].layer > 0);
            assert(config_error(cs[i]) is None);
        }
    }
    false
}

/// Every level of a hierarchy built from a configuration adds to its access time exactly
/// the time it reports for each request (its caches do not prefetch), so the time a cache
/// reports for a request is its own latencies plus what the level below added.
pub proof fn law_configured_levels_charge_reported_time(
    s: Storage,
    memory: MemoryConfig,
    caches: Seq<CacheConfig>,
    k: nat,
)
    requires
        layers_numbered(caches),
        is_hierarchy(s, memory, caches),
        k <= caches.len(),
    ensures
        s.level(k).charges_reported_time(),
{
    if k < caches.len() {
        lemma_every_layer_present(caches, (k + 1) as int);
        let j = choose|j: int| 0 <= j < caches.len() && #[trigger] caches[j].layer == k + 1;
        assert(s.level((caches[j].layer - 1) as nat) == s.level(k));
        if let Storage::Cache(c) = s.level(k) {
            lemma_charging_levels(arbitrary(), *c);
        }
    } else {
        if let Storage::Memory(m) = s.level(k) {
            lemma_charging_levels(m, arbitrary());
        }
    }
}

/// Each cache of a hierarchy built from a configuration carries its own entry's
/// latencies, so that a request it serves itself costs that entry's hit latency plus its
/// bus latency.
pub proof fn law_levels_carry_entry_latencies(
    s: Storage,
    memory: MemoryConfig,
    caches: Seq<CacheConfig>,
    j: int,
)
    requires
        is_hierarchy(s, memory, caches),
        0 <= j < caches.len(),
    ensures
        s.level((caches[j].layer - 1) as nat).latency_spec().hit_latency == caches[j].hit_latency,
        s.level((caches[j].layer - 1) as nat).latency_spec().bus_latency == caches[j].bus_latency,
        s.level(caches.len()).latency_spec().hit_latency == memory.hit_latency,
        s.level(caches.len()).latency_spec().bus_latency == memory.bus_latency,
{
    let k = (caches[j].layer - 1) as nat;
    assert(s.level(k) matches Storage::Cache(c) && c.built_from(
        over(options_of(caches[j]), s.level(caches[j].layer as nat)),
    ));
    lemma_level_views(s.level(k), 0);
    lemma_level_views(s.level(caches.len()), 0);
}

/// `after` is `before` once it served the access `op`: a one-byte read or write at its
/// address (see `Storage::served`).
pub open spec fn served_op(before: Storage, after: Storage, op: TraceOp) -> bool {
    exists|r: (bool, usize)| before.served(after, op.address(), 1, op.is_read(), r)
}

/// `states` are the states a level passes through while serving `ops` in order: each
/// state is the one before it once it served the next access.
pub open spec fn served_in_order(states: Seq<Storage>, ops: Seq<TraceOp>) -> bool {
    &&& states.len() == ops.len() + 1
    &&& forall|i: int| 0 <= i < ops.len() ==> #[trigger] served_op(states[i], states[i + 1], ops[i])
}

/// Serves the accesses left in `trace` at `top`, in order: each a one-byte read or write
/// at its address.
pub fn run_trace(top: &mut Storage, trace: &mut Trace)
    requires
        old(top).wf(),
        old(top).headroom(old(trace).remaining()),
    ensures
        final(top).wf(),
        final(top).depth() == old(top).depth(),
        final(top).latency_spec() == old(top).latency_spec(),
        final(top).stats_spec().access_counter == old(top).stats_spec().access_counter + old(
            trace,
        ).remaining(),
        exists|states: Seq<Storage>|
            #[trigger] served_in_order(states, old(trace).remaining_ops()) && states[0] == *old(top)
                && states.last() == *final(top),
        final(trace).ops() == old(trace).ops(),
        final(trace).remaining() == 0,
{
    let ghost top0 = *top;
    let ghost trace0 = *trace;
    let ghost ops = trace0.ops();
    let ghost p0 = trace0.position();
    let ghost mut states: Seq<Storage> = seq![top0];
    proof {
        if p0 < ops.len() {
            assert(ops.subrange(p0 as int, p0 as int) =~= Seq::<TraceOp>::empty());
        }
    }
    while trace.current_position() < trace.len()
        invariant
            top.wf(),
            top.depth() == top0.depth(),
            top.latency_spec() == top0.latency_spec(),
            top.headroom(trace.remaining()),
            top.stats_spec().access_counter + trace.remaining() == top0.stats_spec().access_counter
                + trace0.remaining(),
            trace.ops() == ops,
            p0 == trace0.position(),
            ops == trace0.ops(),
            states[0] == top0,
            states.last() == *top,
            p0 < ops.len() ==> p0 <= trace.position() <= ops.len() && served_in_order(
                states,
                ops.subrange(p0 as int, trace.position() as int),
            ),
            p0 >= ops.len() ==> trace.position() == p0 && states.len() == 1,
        decreases trace.remaining(),
    {
        let ghost before = *trace;
        let ghost top_before = *top;
        let ghost states_before = states;
        let op = trace.next();
        if let Some(op) = op {
            let (addr, read) = match op {
                TraceOp::Read(a) => (a, true),
                TraceOp::Write(a) => (a, false),
            };
            proof {
                lemma_headroom_monotone(*top, before.remaining(), 1);
            }
            let r = top.handle_request(addr, 1, read);
            proof {
                states = states.push(*top);
                let done0 = ops.subrange(p0 as int, before.position() as int);
                let done = ops.subrange(p0 as int, trace.position() as int);
                assert(done =~= done0.push(op));
                assert(top_before.served(*top, op.address(), 1, op.is_read(), r));
                assert(served_op(top_before, *top, op));
                assert forall|i: int| 0 <= i < done.len() implies #[trigger] served_op(
                    states[i],
                    states[i + 1],
                    done[i],
                ) by {
                    if i < done.len() - 1 {
                        assert(served_op(states_before[i], states_before[i + 1], done0[i]));
                    }
                }
            }
        }
    }
    proof {
        if p0 >= ops.len() {
            assert(trace0.remaining_ops() =~= Seq::<TraceOp>::empty());
        }
        assert(served_in_order(states, trace0.remaining_ops()));
    }
}

} // verus!
