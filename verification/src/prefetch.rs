use vstd::prelude::*;

use std::collections::{HashMap, VecDeque};

use crate::cache::CacheLine;
use vstd::std_specs::iter::IteratorSpec;

verus! {

broadcast use vstd::std_specs::hash::group_hash_axioms;

/// Whether one of `lines` carries the block with this tag and set index.
pub open spec fn lines_hold(lines: Seq<CacheLine>, tag: u64, set: u64) -> bool {
    exists|i: int| 0 <= i < lines.len() && #[trigger] lines[i].tag == tag && lines[i].set == set
}

/// `l` is the first of `lines` that carries the block with this tag and set index.
pub open spec fn is_first_holding(lines: Seq<CacheLine>, tag: u64, set: u64, l: CacheLine) -> bool {
    exists|i: int|
        0 <= i < lines.len() && #[trigger] lines[i] == l && l.tag == tag && l.set == set
            && forall|j: int| 0 <= j < i ==> !(#[trigger] lines[j].tag == tag && lines[j].set == set)
}

/// Blocks fetched ahead along one address stride.
pub struct PrefetchStream {
    /// The prefetched lines, oldest first.
    pub buffer: VecDeque<CacheLine>,
    /// The manager's clock when the stream was last handed out.
    pub timestamp: u64,
    pub stride: i64,
    pub depth: usize,
}

impl PrefetchStream {
    /// An empty stream for `stride` that will hold up to `depth` lines.
    pub fn new(stride: i64, depth: usize) -> (s: Self)
        ensures
            s.buffer@ == Seq::<CacheLine>::empty(),
            s.timestamp == 0,
            s.stride == stride,
            s.depth == depth,
    {
        PrefetchStream { buffer: VecDeque::with_capacity(depth), timestamp: 0, stride, depth }
    }

    pub open spec fn holds(&self, tag: u64, set: u64) -> bool {
        lines_hold(self.buffer@, tag, set)
    }

    /// The first buffered line with this tag and set index.
    pub fn check_hit(&self, tag: u64, set: u64) -> (r: Option<&CacheLine>)
        ensures
            r is Some <==> self.holds(tag, set),
            r matches Some(l) ==> l.tag == tag && l.set == set,
            r matches Some(l) ==> is_first_holding(self.buffer@, tag, set, *l),
    {
        let mut i: usize = 0;
        while i < self.buffer.len()
            invariant
                i <= self.buffer@.len(),
                forall|j: int| 0 <= j < i ==> !(#[trigger] self.buffer@[j].tag == tag && self.buffer@[j].set == set),
            decreases self.buffer@.len() - i,
        {
            if self.buffer[i].tag == tag && self.buffer[i].set == set {
                return Some(&self.buffer[i]);
            }
            i = i + 1;
        }
        None
    }
}


/// `x.abs()` in two's complement: `i64::MIN` stays `i64::MIN`.
pub open spec fn wrapping_abs(x: i64) -> i64 {
    if x < 0 {
        0i64.wrapping_sub(x)
    } else {
        x
    }
}

/// The distance from `prev` to `addr`, both read as signed 64-bit values, in two's
/// complement.
pub open spec fn address_delta(addr: u64, prev: u64) -> i64 {
    (addr as i64).wrapping_sub(prev as i64)
}

/// The stride detected for an access to `addr`: scanning the history from the most
/// recent entry, the distance to the first earlier access whose own stride was unknown
/// (`-1`) or equal to that distance, provided the distance is at most 64 in magnitude;
/// `-1` if there is none.
pub open spec fn detected_stride(history: Seq<(u64, i64)>, addr: u64) -> i64
    decreases history.len(),
{
    if history.len() == 0 {
        -1i64
    } else {
        let (prev_addr, prev_stride) = history.last();
        let cur = address_delta(addr, prev_addr);
        if (prev_stride == -1 || cur == prev_stride) && wrapping_abs(cur) <= 64 {
            cur
        } else {
            detected_stride(history.drop_last(), addr)
        }
    }
}

/// A detected stride is `-1`, or the distance from an earlier recorded address to `addr`
/// that is at most 64 in magnitude.  The one exception is the distance `i64::MIN`, whose
/// two's complement magnitude is itself and so passes the bound.
pub proof fn law_detected_stride_is_short_distance(history: Seq<(u64, i64)>, addr: u64)
    ensures
        detected_stride(history, addr) == -1 || detected_stride(history, addr) == i64::MIN
            || -64 <= detected_stride(history, addr) <= 64,
        detected_stride(history, addr) == -1 || exists|j: int|
            0 <= j < history.len() && detected_stride(history, addr) == address_delta(
                addr,
                #[trigger] history[j].0,
            ),
    decreases history.len(),
{
    if history.len() > 0 {
        let prev = history.last();
        let cur = address_delta(addr, prev.0);
        if (prev.1 == -1 || cur == prev.1) && wrapping_abs(cur) <= 64 {
            assert(cur == i64::MIN || -64 <= cur <= 64) by (bit_vector)
                requires
                    (if cur < 0 { 0i64.wrapping_sub(cur) } else { cur }) <= 64,
            ;
            assert(history[history.len() - 1].0 == prev.0);
        } else {
            law_detected_stride_is_short_distance(history.drop_last(), addr);
            let d = detected_stride(history, addr);
            if d != -1 {
                let j = choose|j: int|
                    0 <= j < history.drop_last().len() && d == address_delta(
                        addr,
                        #[trigger] history.drop_last()[j].0,
                    );
                assert(history[j].0 == history.drop_last()[j].0);
            }
        }
    }
}

/// The clock value of the line most recently added to a stream.
pub open spec fn newest_line_time(s: PrefetchStream) -> u64 {
    s.buffer@[s.buffer@.len() - 1].timestamp
}

/// `stride` names a stream whose newest line is no newer than that of any other stream.
pub open spec fn is_oldest_stream(streams: Map<i64, PrefetchStream>, stride: i64) -> bool {
    &&& streams.contains_key(stride)
    &&& forall|k: i64| #[trigger]
        streams.contains_key(k) ==> newest_line_time(streams[stride]) <= newest_line_time(streams[k])
}

/// `after` is `before` less one stream whose newest line is the oldest (nothing is
/// removed from an empty map).
pub open spec fn oldest_stream_evicted(
    before: Map<i64, PrefetchStream>,
    after: Map<i64, PrefetchStream>,
) -> bool {
    ||| before.dom().len() == 0 && after == before
    ||| exists|k: i64| is_oldest_stream(before, k) && after == before.remove(k)
}

/// Tracks the recent access pattern and the prefetch streams built from it.
/// The most streams a manager limited to `max_streams` holds: that many, but always room
/// for the stream being handed out.
pub open spec fn stream_capacity(max_streams: usize) -> nat {
    if max_streams == 0 {
        1
    } else {
        max_streams as nat
    }
}

/// The prefetch streams of a cache, with the history of the addresses that missed.
pub struct PrefetchStreamManager {
    /// Every recorded access with the stride detected for it, oldest first.
    pub access_history: Vec<(u64, i64)>,
    pub streams: HashMap<i64, PrefetchStream>,
    pub max_streams: usize,
    pub stream_buffer_depth: usize,
}

impl PrefetchStreamManager {
    /// A manager with no history and no stream.
    pub fn new(max_streams: usize, stream_buffer_depth: usize) -> (m: Self)
        ensures
            m.access_history@ == Seq::<(u64, i64)>::empty(),
            m.streams@ == Map::<i64, PrefetchStream>::empty(),
            m.max_streams == max_streams,
            m.stream_buffer_depth == stream_buffer_depth,
    {
        PrefetchStreamManager {
            access_history: Vec::new(),
            streams: HashMap::new(),
            max_streams,
            stream_buffer_depth,
        }
    }

    /// Every stream holds at least one line and its newest line is older than `now`.
    pub open spec fn streams_ready(&self, now: u64) -> bool {
        forall|k: i64| #[trigger]
            self.streams@.contains_key(k) ==> self.streams@[k].buffer@.len() >= 1
                && newest_line_time(self.streams@[k]) < now
    }

    pub open spec fn holds(&self, tag: u64, set: u64) -> bool {
        exists|k: i64| #[trigger] self.streams@.contains_key(k) && self.streams@[k].holds(tag, set)
    }

    /// A buffered line of some stream with this tag and set index.
    pub fn check_hit(&self, tag: u64, set: u64) -> (r: Option<&CacheLine>)
        ensures
            r is Some <==> self.holds(tag, set),
            r matches Some(l) ==> l.tag == tag && l.set == set,
            r matches Some(l) ==> exists|k: i64|
                #[trigger] self.streams@.contains_key(k) && is_first_holding(
                    self.streams@[k].buffer@,
                    tag,
                    set,
                    *l,
                ),
    {
        let ghost m = self.streams@;
        let ghost mut seen: Set<PrefetchStream> = Set::empty();
        for stream in it: self.streams.values()
            invariant
                m == self.streams@,
                it.seq().unref().to_set() == m.values(),
                forall|v: PrefetchStream| #[trigger] seen.contains(v) ==> !v.holds(tag, set),
                forall|j: int| 0 <= j < it.index() ==> seen.contains(#[trigger] it.seq().unref()[j]),
        {
            if let Some(cache_line) = stream.check_hit(tag, set) {
                proof {
                    assert(it.seq().unref()[it.index() as int] == *stream);
                    assert(it.seq().unref().to_set().contains(*stream));
                    assert(m.values().contains(*stream));
                    let k = choose|k: i64| #[trigger] m.contains_key(k) && m[k] == *stream;
                    assert(m.contains_key(k) && m[k].holds(tag, set));
                    assert(is_first_holding(m[k].buffer@, tag, set, *cache_line));
                }
                return Some(cache_line);
            }
            proof {
                assert(it.seq().unref()[it.index() as int] == *stream);
                seen = seen.insert(*stream);
            }
        }
        proof {
            assert forall|k: i64| #[trigger] m.contains_key(k) implies !m[k].holds(tag, set) by {
                assert(m.values().contains(m[k]));
            }
        }
        None
    }

    /// The stream for `stride`, created if there is none; when the manager already
    /// holds `max_streams` streams, the stream whose newest line is the oldest is dropped
    /// first.  The stream handed out is stamped with `now`.
    pub fn get_stream(&mut self, stride: i64, depth: usize, now: u64) -> (r: &mut PrefetchStream)
        requires
            old(self).streams_ready(now),
        ensures
            final(self).access_history@ == old(self).access_history@,
            final(self).max_streams == old(self).max_streams,
            final(self).stream_buffer_depth == old(self).stream_buffer_depth,
            old(self).streams@.contains_key(stride) ==> *r == (PrefetchStream {
                timestamp: now,
                ..old(self).streams@[stride]
            }),
            old(self).streams@.contains_key(stride) ==> final(self).streams@ == old(
                self,
            ).streams@.insert(stride, *final(r)),
            !old(self).streams@.contains_key(stride) ==> {
                &&& r.buffer@ == Seq::<CacheLine>::empty()
                &&& r.timestamp == now
                &&& r.stride == stride
                &&& r.depth == depth
            },
            !old(self).streams@.contains_key(stride) ==> exists|m1: Map<i64, PrefetchStream>|
                {
                    &&& (if old(self).streams@.len() >= old(self).max_streams {
                        oldest_stream_evicted(old(self).streams@, m1)
                    } else {
                        m1 == old(self).streams@
                    })
                    &&& final(self).streams@ == #[trigger] m1.insert(stride, *final(r))
                },
            old(self).streams@.len() <= stream_capacity(old(self).max_streams)
                ==> final(self).streams@.len() <= stream_capacity(old(self).max_streams),
    {
        let ghost m0 = self.streams@;
        if !self.streams.contains_key(&stride) {
            if self.streams.len() >= self.max_streams {
                let mut min_timestamp = now;
                let mut min_stride: i64 = 0;
                let ghost mut seen: Set<i64> = Set::empty();
                for (k, stream) in it: self.streams.iter()
                    invariant
                        m0 == self.streams@,
                        self.streams_ready(now),
                        forall|key: i64| #[trigger]
                            m0.contains_key(key) ==> it.seq().contains((&key, &m0[key])),
                        forall|j: int|
                            0 <= j < it.seq().len() ==> m0.contains_key(*(#[trigger] it.seq()[j]).0)
                                && m0[*it.seq()[j].0] == *it.seq()[j].1,
                        forall|j: int| 0 <= j < it.index() ==> seen.contains(*(#[trigger] it.seq()[j]).0),
                        it.seq().len() == m0.len(),
                        it.index() == 0 ==> min_timestamp == now && min_stride == 0,
                        it.index() > 0 ==> m0.contains_key(min_stride) && min_timestamp
                            == newest_line_time(m0[min_stride]),
                        forall|key: i64| #[trigger]
                            seen.contains(key) ==> m0.contains_key(key) && min_timestamp
                                <= newest_line_time(m0[key]),
                        seen.finite(),
                {
                    proof {
                        assert(m0.contains_key(*k) && m0[*k] == *stream);
                    }
                    let newest = stream.buffer[stream.buffer.len() - 1].timestamp;
                    if newest < min_timestamp {
                        min_timestamp = newest;
                        min_stride = *k;
                    }
                    proof {
                        seen = seen.insert(*k);
                    }
                }
                proof {
                    assert forall|key: i64| #[trigger] m0.contains_key(key) implies seen.contains(key) by {}
                }
                self.streams.remove(&min_stride);
                proof {
                    if m0.len() == 0 {
                        assert(self.streams@ =~= m0);
                        assert(oldest_stream_evicted(m0, self.streams@));
                    } else {
                        assert(m0.contains_key(min_stride));
                        assert(is_oldest_stream(m0, min_stride));
                        assert(oldest_stream_evicted(m0, self.streams@));
                    }
                }
            }
            let ghost m1 = self.streams@;
            self.streams.insert(stride, PrefetchStream::new(stride, depth));
            proof {
                let m2 = self.streams@;
                assert forall|x: PrefetchStream| #[trigger] m2.insert(stride, x) == m1.insert(stride, x) by {
                    assert(m2.insert(stride, x) =~= m1.insert(stride, x));
                }
            }
        }
        let res = self.streams.entry(stride).or_insert(PrefetchStream::new(stride, depth));
        res.timestamp = now;
        res
    }

    /// Detects the stride of an access to `addr` from the history, records the access
    /// with that stride, and returns it.
    pub fn record_addr(&mut self, addr: u64) -> (r: i64)
        ensures
            r == detected_stride(old(self).access_history@, addr),
            r == -1 || r == i64::MIN || -64 <= r <= 64,
            final(self).access_history@ == old(self).access_history@.push((addr, r)),
            final(self).streams@ == old(self).streams@,
            final(self).max_streams == old(self).max_streams,
            final(self).stream_buffer_depth == old(self).stream_buffer_depth,
    {
        let ghost h = self.access_history@;
        let mut stride: i64 = -1;
        let mut i = self.access_history.len();
        assert(h.subrange(0, h.len() as int) =~= h);
        while i > 0
            invariant_except_break
                stride == -1,
            invariant
                i <= h.len(),
                h == self.access_history@,
                detected_stride(h, addr) == detected_stride(h.subrange(0, i as int), addr),
            ensures
                stride == detected_stride(h, addr),
            decreases i,
        {
            let (prev_addr, prev_stride) = self.access_history[i - 1];
            let cur_stride = (addr as i64).wrapping_sub(prev_addr as i64);
            let magnitude = if cur_stride < 0 { 0i64.wrapping_sub(cur_stride) } else { cur_stride };
            proof {
                assert(h.subrange(0, i as int).last() == (prev_addr, prev_stride));
                assert(h.subrange(0, i as int).drop_last() =~= h.subrange(0, i - 1));
            }
            if (prev_stride == -1 || cur_stride == prev_stride) && magnitude <= 64 {
                stride = cur_stride;
                break;
            }
            i = i - 1;
            proof {
                if i == 0 {
                    assert(h.subrange(0, 0) =~= Seq::<(u64, i64)>::empty());
                }
            }
        }
        proof {
            law_detected_stride_is_short_distance(h, addr);
        }
        self.access_history.push((addr, stride));
        stride
    }
}

} // verus!
