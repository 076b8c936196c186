use vstd::prelude::*;

use crate::cache::CacheLine;

verus! {

// ---------------------------------------------------------------------------------
// Least recently used

/// `i` is the first line with the smallest timestamp.
pub open spec fn is_lru_victim(lines: Seq<CacheLine>, i: int) -> bool {
    &&& 0 <= i < lines.len()
    &&& forall|j: int| 0 <= j < lines.len() ==> lines[i].timestamp <= #[trigger] lines[j].timestamp
    &&& forall|j: int| 0 <= j < i ==> lines[i].timestamp < #[trigger] lines[j].timestamp
}

/// The line least-recently-used replacement picks, the clock reading `now` given: the
/// first line with the smallest timestamp when some line was last used before `now`, and
/// line 0 when none was.
pub open spec fn is_lru_choice(lines: Seq<CacheLine>, i: int, now: u64) -> bool {
    if exists|j: int| 0 <= j < lines.len() && #[trigger] lines[j].timestamp < now {
        is_lru_victim(lines, i)
    } else {
        i == 0
    }
}

/// The line to evict under least-recently-used replacement: the one whose last use is
/// the oldest (the first such line if several share that time), searching only among
/// uses before `now`; line 0 if there is none.
pub fn lru_victim(lines: &Vec<CacheLine>, now: u64) -> (r: usize)
    requires
        lines.len() >= 1,
    ensures
        r < lines.len(),
        is_lru_choice(lines@, r as int, now),
{
    let mut far_one: usize = 0;
    let mut far_one_time = now;
    let mut idx: usize = 0;
    while idx < lines.len()
        invariant
            idx <= lines.len(),
            lines.len() >= 1,
            far_one < lines.len(),
            far_one_time == now ==> far_one == 0 && forall|j: int|
                0 <= j < idx ==> now <= #[trigger] lines@[j].timestamp,
            far_one_time < now ==> {
                &&& far_one < idx
                &&& far_one_time == lines@[far_one as int].timestamp
                &&& forall|j: int| 0 <= j < idx ==> far_one_time <= #[trigger] lines@[j].timestamp
                &&& forall|j: int| 0 <= j < far_one ==> far_one_time < #[trigger] lines@[j].timestamp
            },
            far_one_time <= now,
        decreases lines.len() - idx,
    {
        if lines[idx].timestamp < far_one_time {
            far_one = idx;
            far_one_time = lines[idx].timestamp;
        }
        idx = idx + 1;
    }
    proof {
        if far_one_time < now {
            assert(lines@[far_one as int].timestamp < now);
        }
    }
    far_one
}

// ---------------------------------------------------------------------------------
// Tree pseudo-LRU
//
// The `n` internal nodes of a complete binary tree are stored in heap order
// (children of node `k` are `2k + 1` and `2k + 2`); the leaves `n ..= 2n` stand for
// the `n + 1` lines of the set.  A set bit sends the search left.

/// The leaf reached by following the bits from `node`.
pub open spec fn plru_leaf(tree: Seq<bool>, node: int, n: int) -> int
    decreases (if node < n { n - node } else { 0 }),
{
    if node < 0 || node >= n {
        node
    } else {
        plru_leaf(tree, if tree[node] { 2 * node + 1 } else { 2 * node + 2 }, n)
    }
}

/// The line the tree designates for eviction.
pub open spec fn plru_victim(tree: Seq<bool>, n: int) -> int {
    plru_leaf(tree, 0, n) - n
}

/// The tree after walking from `node` up to the root, setting each parent's bit so
/// that it points away from the child just left.
pub open spec fn plru_mark(tree: Seq<bool>, node: int) -> Seq<bool>
    decreases node,
{
    if node <= 0 {
        tree
    } else {
        plru_mark(tree.update((node - 1) / 2, node % 2 == 0), (node - 1) / 2)
    }
}

proof fn lemma_plru_leaf_bounds(tree: Seq<bool>, node: int, n: int)
    requires
        0 <= node <= 2 * n,
    ensures
        node <= plru_leaf(tree, node, n),
        n <= plru_leaf(tree, node, n) <= 2 * n || (node >= n && plru_leaf(tree, node, n) == node),
        node < n ==> n <= plru_leaf(tree, node, n) <= 2 * n,
    decreases (if node < n { n - node } else { 0 }),
{
    if node < n {
        let c = if tree[node] { 2 * node + 1 } else { 2 * node + 2 };
        lemma_plru_leaf_bounds(tree, c, n);
    }
}

/// The child of the root whose subtree holds `node` (for `node >= 1`).
pub open spec fn plru_subtree(node: int) -> int
    decreases node,
{
    if node <= 2 {
        node
    } else {
        plru_subtree((node - 1) / 2)
    }
}

proof fn lemma_plru_leaf_stays_in_subtree(tree: Seq<bool>, node: int, n: int)
    requires
        node >= 1,
    ensures
        plru_subtree(plru_leaf(tree, node, n)) == plru_subtree(node),
    decreases (if node < n { n - node } else { 0 }),
{
    if node < n {
        let c = if tree[node] { 2 * node + 1 } else { 2 * node + 2 };
        assert((c - 1) / 2 == node);
        lemma_plru_leaf_stays_in_subtree(tree, c, n);
    }
}

proof fn lemma_plru_mark_root(tree: Seq<bool>, node: int)
    requires
        node >= 1,
        tree.len() >= 1,
        (node - 1) / 2 < tree.len(),
    ensures
        plru_mark(tree, node).len() == tree.len(),
        plru_mark(tree, node)[0] == (plru_subtree(node) == 2),
    decreases node,
{
    let p = (node - 1) / 2;
    let t1 = tree.update(p, node % 2 == 0);
    assert(plru_mark(tree, node) == plru_mark(t1, p));
    if p > 0 {
        lemma_plru_mark_root(t1, p);
        assert(plru_subtree(node) == plru_subtree(p));
    } else {
        assert(plru_mark(t1, 0) == t1);
        assert(node == 1 || node == 2);
    }
}

/// After an eviction, tree pseudo-LRU designates a different line of the set (when
/// the set has at least two lines): the marked path points away from the evicted line.
pub proof fn law_plru_next_victim_differs(tree: Seq<bool>, num_lines: int)
    requires
        num_lines >= 2,
        tree.len() == num_lines - 1,
    ensures
        plru_victim(plru_mark(tree, plru_leaf(tree, 0, num_lines - 1)), num_lines - 1)
            != plru_victim(tree, num_lines - 1),
{
    let n = num_lines - 1;
    let leaf = plru_leaf(tree, 0, n);
    lemma_plru_leaf_bounds(tree, 0, n);
    let c = if tree[0] { 1int } else { 2int };
    lemma_plru_leaf_stays_in_subtree(tree, c, n);
    assert(leaf == plru_leaf(tree, c, n));
    lemma_plru_mark_root(tree, leaf);
    let t1 = plru_mark(tree, leaf);
    let c1 = if t1[0] { 1int } else { 2int };
    lemma_plru_leaf_stays_in_subtree(t1, c1, n);
    assert(plru_leaf(t1, 0, n) == plru_leaf(t1, c1, n));
    assert(plru_subtree(c) == c);
    assert(plru_subtree(c1) == c1);
}

/// Picks and returns the line the pseudo-LRU tree designates, then marks the path to
/// it so that the tree points away from it.
pub fn pseudo_lru_victim(tree: &mut Vec<bool>, num_lines: usize) -> (r: usize)
    requires
        num_lines >= 1,
        num_lines <= usize::MAX / 2,
        old(tree).len() == num_lines - 1,
    ensures
        r == plru_victim(old(tree)@, num_lines - 1),
        r < num_lines,
        final(tree)@.len() == old(tree)@.len(),
        final(tree)@ == plru_mark(old(tree)@, plru_leaf(old(tree)@, 0, num_lines - 1)),
{
    let ghost t0 = tree@;
    let mut node_index: usize = 0;
    let num_nodes = num_lines - 1;
    proof {
        lemma_plru_leaf_bounds(t0, 0, num_nodes as int);
    }
    while node_index < num_nodes
        invariant
            tree@ == t0,
            num_nodes == num_lines - 1,
            num_lines <= usize::MAX / 2,
            tree.len() == num_nodes,
            node_index <= 2 * num_nodes,
            plru_leaf(t0, node_index as int, num_nodes as int) == plru_leaf(t0, 0, num_nodes as int),
        decreases (if node_index < num_nodes { num_nodes - node_index } else { 0 }),
    {
        let left_child = 2 * node_index + 1;
        let right_child = 2 * node_index + 2;
        if tree[node_index] {
            node_index = left_child;
        } else {
            node_index = right_child;
        }
    }
    let line_index = node_index - num_nodes;
    let mut update_index = node_index;
    while update_index > 0
        invariant
            tree.len() == num_nodes,
            update_index <= node_index,
            node_index == plru_leaf(t0, 0, num_nodes as int),
            node_index <= 2 * num_nodes,
            plru_mark(tree@, update_index as int) == plru_mark(t0, node_index as int),
        decreases update_index,
    {
        let parent_index = (update_index - 1) / 2;
        proof {
            assert(parent_index < num_nodes);
        }
        tree.set(parent_index, update_index % 2 == 0);
        update_index = parent_index;
    }
    line_index
}


// ---------------------------------------------------------------------------------
// Clock (second chance)

/// The line `d` steps forward round a set of `len` lines from `ptr` (for `d <= len`).
pub open spec fn clock_index(ptr: int, d: int, len: int) -> int {
    if ptr + d >= len {
        ptr + d - len
    } else {
        ptr + d
    }
}

/// The distance from `ptr` forward round a set of `len` lines to line `j`.
pub open spec fn clock_distance(ptr: int, j: int, len: int) -> int {
    if j >= ptr {
        j - ptr
    } else {
        j - ptr + len
    }
}

/// How many lines, counted from `ptr` round the set, have their reference bit set before
/// the first one that has not (the set's size if all have).
pub open spec fn clock_skips(lines: Seq<CacheLine>, ptr: int, d: int) -> int
    decreases lines.len() - d,
{
    if d >= lines.len() || d < 0 {
        lines.len() as int
    } else if !lines[clock_index(ptr, d, lines.len() as int)].used {
        d
    } else {
        clock_skips(lines, ptr, d + 1)
    }
}

proof fn lemma_clock_skips_bounds(lines: Seq<CacheLine>, ptr: int, d: int)
    requires
        0 <= d <= lines.len(),
    ensures
        d <= clock_skips(lines, ptr, d) <= lines.len(),
    decreases lines.len() - d,
{
    if d < lines.len() && lines[clock_index(ptr, d, lines.len() as int)].used {
        lemma_clock_skips_bounds(lines, ptr, d + 1);
    }
}

proof fn lemma_clock_skips_spec(lines: Seq<CacheLine>, ptr: int, d: int)
    requires
        0 <= d <= lines.len(),
    ensures
        d <= clock_skips(lines, ptr, d) <= lines.len(),
        forall|e: int|
            d <= e < clock_skips(lines, ptr, d) ==> #[trigger] lines[clock_index(
                ptr,
                e,
                lines.len() as int,
            )].used,
        clock_skips(lines, ptr, d) < lines.len() ==> !lines[clock_index(
            ptr,
            clock_skips(lines, ptr, d),
            lines.len() as int,
        )].used,
    decreases lines.len() - d,
{
    if d < lines.len() && lines[clock_index(ptr, d, lines.len() as int)].used {
        lemma_clock_skips_spec(lines, ptr, d + 1);
    }
}

/// Clock replacement evicts a line whose reference bit was clear when the hand reached
/// it, having cleared the bits of the lines it passed; only when every line's bit was
/// set does it go once round, clearing them all, and evict the line under the hand.
pub proof fn law_clock_second_chance(lines: Seq<CacheLine>, ptr: int)
    requires
        0 <= ptr < lines.len(),
    ensures
        ({
            let k = clock_skips(lines, ptr, 0);
            let victim = clock_index(ptr, k, lines.len() as int);
            &&& (exists|j: int| 0 <= j < lines.len() && !#[trigger] lines[j].used) ==> !lines[victim].used
            &&& (forall|j: int| 0 <= j < lines.len() ==> #[trigger] lines[j].used) ==> victim == ptr
            &&& forall|j: int|
                0 <= j < lines.len() && clock_distance(ptr, j, lines.len() as int) < k
                    ==> #[trigger] lines[j].used
        }),
{
    let len = lines.len() as int;
    let k = clock_skips(lines, ptr, 0);
    lemma_clock_skips_spec(lines, ptr, 0);
    if exists|j: int| 0 <= j < lines.len() && !#[trigger] lines[j].used {
        let j = choose|j: int| 0 <= j < lines.len() && !#[trigger] lines[j].used;
        if k == len {
            let e = clock_distance(ptr, j, len);
            assert(clock_index(ptr, e, len) == j);
            assert(lines[clock_index(ptr, e, len)].used);
        }
    }
    if forall|j: int| 0 <= j < lines.len() ==> #[trigger] lines[j].used {
        if k < len {
            assert(lines[clock_index(ptr, k, len)].used);
        }
    }
    assert forall|j: int|
        0 <= j < lines.len() && clock_distance(ptr, j, lines.len() as int) < k
            implies #[trigger] lines[j].used by {
        let e = clock_distance(ptr, j, len);
        assert(clock_index(ptr, e, len) == j);
    }
}

/// Clock replacement: starting at the hand `ptr`, clears the reference bit of each
/// line that has it set and moves on, until it reaches a line whose bit is clear; that
/// line is the victim.  Returns the victim; the hand should then move past it.
pub fn clock_victim(lines: &mut Vec<CacheLine>, ptr: usize) -> (r: usize)
    requires
        old(lines).len() >= 1,
        ptr < old(lines).len(),
    ensures
        final(lines).len() == old(lines).len(),
        r == clock_index(ptr as int, clock_skips(old(lines)@, ptr as int, 0), old(lines).len() as int),
        r < old(lines).len(),
        !final(lines)@[r as int].used,
        forall|j: int|
            #![trigger final(lines)@[j]]
            0 <= j < final(lines).len() ==> {
                &&& final(lines)@[j].used == (old(lines)@[j].used && clock_distance(
                    ptr as int,
                    j,
                    old(lines).len() as int,
                ) >= clock_skips(old(lines)@, ptr as int, 0))
                &&& final(lines)@[j].valid == old(lines)@[j].valid
                &&& final(lines)@[j].dirty == old(lines)@[j].dirty
                &&& final(lines)@[j].tag == old(lines)@[j].tag
                &&& final(lines)@[j].set == old(lines)@[j].set
                &&& final(lines)@[j].data == old(lines)@[j].data
                &&& final(lines)@[j].timestamp == old(lines)@[j].timestamp
            },
{
    let ghost l0 = lines@;
    let len = lines.len();
    let mut idx = ptr;
    let ghost mut steps: int = 0;
    proof {
        lemma_clock_skips_bounds(l0, ptr as int, 0);
    }
    while lines[idx].used
        invariant
            lines.len() == len,
            len == l0.len(),
            len >= 1,
            ptr < len,
            0 <= steps <= len,
            idx < len,
            idx == clock_index(ptr as int, steps, len as int),
            clock_skips(l0, ptr as int, 0) == clock_skips(l0, ptr as int, steps),
            steps == len ==> !lines@[idx as int].used,
            forall|j: int|
                #![trigger lines@[j]]
                0 <= j < len ==> {
                    &&& lines@[j].used == (l0[j].used && clock_distance(
                        ptr as int,
                        j,
                        len as int,
                    ) >= steps)
                    &&& lines@[j].valid == l0[j].valid
                    &&& lines@[j].dirty == l0[j].dirty
                    &&& lines@[j].tag == l0[j].tag
                    &&& lines@[j].set == l0[j].set
                    &&& lines@[j].data == l0[j].data
                    &&& lines@[j].timestamp == l0[j].timestamp
                },
        decreases len - steps,
    {
        proof {
            assert(clock_distance(ptr as int, idx as int, len as int) == steps);
            assert(l0[idx as int].used);
        }
        lines[idx].used = false;
        proof {
            if idx + 1 < len {
                vstd::arithmetic::div_mod::lemma_small_mod((idx + 1) as nat, len as nat);
            } else {
                vstd::arithmetic::div_mod::lemma_mod_self_0(len as int);
            }
        }
        idx = (idx + 1) % len;
        proof {
            steps = steps + 1;
            if steps == len {
                assert(clock_distance(ptr as int, ptr as int, len as int) == 0);
            }
        }
    }
    proof {
        if steps < len {
            assert(clock_distance(ptr as int, idx as int, len as int) == steps);
            assert(!l0[idx as int].used);
        }
        assert(clock_skips(l0, ptr as int, steps) == steps);
    }
    idx
}

} // verus!
