//! Deadlock detection: cycles in the lock-order graph.
use std::collections::{HashMap, HashSet};
use vstd::prelude::*;

use crate::collections::{
    cycle_key_entries, cycle_keys_contains, cycle_keys_insert, cycle_keys_new, lock_events_get, lock_graph_keys,
    CycleKeySet,
};
use crate::tracker::{
    law_wait_adds_edge, law_wait_keeps_edges, wait_recorded, GlobalTracker, LockEvent, LockId, LockType, ThreadId,
};

verus! {

broadcast use vstd::std_specs::hash::group_hash_axioms;

/// The wait-for graph: each lock to the locks that were waited for while it
/// was held.
pub type WaitGraph = HashMap<LockId, Vec<LockId>>;

/// The edges of a wait-for graph.
pub open spec fn wait_edges(graph: Map<LockId, Vec<LockId>>) -> Set<(LockId, LockId)> {
    Set::new(|e: (LockId, LockId)| graph.contains_key(e.0) && graph[e.0]@.contains(e.1))
}

/// Step `i` of `path` follows an edge.
pub open spec fn path_step(edges: Set<(LockId, LockId)>, path: Seq<LockId>, i: int) -> bool {
    edges.contains((path[i], path[i + 1]))
}

/// Each node of `path` has an edge to the next one.
pub open spec fn is_path(edges: Set<(LockId, LockId)>, path: Seq<LockId>) -> bool {
    forall|i: int| 0 <= i < path.len() - 1 ==> #[trigger] path_step(edges, path, i)
}

/// `cycle` is a cycle of `edges`: its nodes are distinct, each has an edge to
/// the next one, and the last has an edge back to the first.
pub open spec fn is_cycle(edges: Set<(LockId, LockId)>, cycle: Seq<LockId>) -> bool {
    &&& cycle.len() > 0
    &&& cycle.no_duplicates()
    &&& is_path(edges, cycle)
    &&& edges.contains((cycle.last(), cycle[0]))
}

/// Whether `edges` has a cycle.
pub open spec fn has_cycle(edges: Set<(LockId, LockId)>) -> bool {
    exists|cycle: Seq<LockId>| #[trigger] is_cycle(edges, cycle)
}

/// Whether `edges` has a cycle through two locks or more.
pub open spec fn has_long_cycle(edges: Set<(LockId, LockId)>) -> bool {
    exists|cycle: Seq<LockId>| #[trigger] is_cycle(edges, cycle) && cycle.len() >= 2
}

/// The node sequences of a list of cycles.
pub open spec fn cycle_views(cycles: Seq<Vec<LockId>>) -> Seq<Seq<LockId>> {
    cycles.map_values(|c: Vec<LockId>| c@)
}

/// Every entry of `cycles` is a cycle of `edges`.
pub open spec fn all_cycles(edges: Set<(LockId, LockId)>, cycles: Seq<Seq<LockId>>) -> bool {
    forall|k: int| 0 <= k < cycles.len() ==> is_cycle(edges, #[trigger] cycles[k])
}

/// Whether `cycles` holds a cycle through two locks or more.
pub open spec fn found_long(cycles: Seq<Seq<LockId>>) -> bool {
    exists|k: int| 0 <= k < cycles.len() && #[trigger] cycles[k].len() >= 2
}

/// Whether `u` lies on a cycle through two locks or more of `cycles`.
pub open spec fn on_long_cycle(cycles: Seq<Seq<LockId>>, u: LockId) -> bool {
    exists|k: int| 0 <= k < cycles.len() && cycles[k].len() >= 2 && #[trigger] cycles[k].contains(u)
}

/// Whether some cycle of `cycles` goes through both `u` and `v`.
pub open spec fn cycle_through(cycles: Seq<Seq<LockId>>, u: LockId, v: LockId) -> bool {
    exists|k: int| 0 <= k < cycles.len() && #[trigger] cycles[k].contains(u) && cycles[k].contains(v)
}

/// What the depth-first search knows of the nodes it finished, given the
/// order in which they finished (`rank`): each edge between distinct nodes
/// from a finished node leads to a node finished before it, unless a found
/// cycle goes through both ends of the edge; while no cycle was found, no
/// finished node has an edge to itself.
pub open spec fn finish_order_ok(
    edges: Set<(LockId, LockId)>,
    rank: Map<LockId, int>,
    cycles: Seq<Seq<LockId>>,
) -> bool {
    &&& forall|u: LockId, v: LockId|
        #[trigger] edges.contains((u, v)) && rank.contains_key(u) && v != u && !cycle_through(cycles, u, v)
            ==> rank.contains_key(v) && rank[v] < rank[u]
    &&& cycles.len() == 0 ==> forall|u: LockId| #[trigger] rank.contains_key(u) ==> !edges.contains((u, u))
}

/// The state of the depth-first search: `path` is the stack of nodes being
/// explored, `rec_stack` its set, `visited` the explored and finished nodes,
/// `rank` the finished nodes in the order they finished, below `clock`.
pub open spec fn search_state(
    edges: Set<(LockId, LockId)>,
    visited: Set<LockId>,
    rec_stack: Set<LockId>,
    path: Seq<LockId>,
    cycles: Seq<Seq<LockId>>,
    rank: Map<LockId, int>,
    clock: int,
) -> bool {
    &&& path.no_duplicates()
    &&& rec_stack == path.to_set()
    &&& is_path(edges, path)
    &&& visited == rank.dom().union(rec_stack)
    &&& rank.dom().disjoint(rec_stack)
    &&& forall|x: LockId| #[trigger] rank.contains_key(x) ==> rank[x] < clock
    &&& all_cycles(edges, cycles)
    &&& finish_order_ok(edges, rank, cycles)
}

/// The stack of the depth-first search: `path` has no node twice, each node
/// of it has an edge to the next, and `rec_stack` is its set of nodes.
pub open spec fn stack_ok(edges: Set<(LockId, LockId)>, rec_stack: Set<LockId>, path: Seq<LockId>) -> bool {
    &&& path.no_duplicates()
    &&& rec_stack == path.to_set()
    &&& is_path(edges, path)
}

/// Every entry of `cycles` from position `from` on is a cycle of `edges`.
pub open spec fn cycles_appended(edges: Set<(LockId, LockId)>, from: int, cycles: Seq<Seq<LockId>>) -> bool {
    forall|k: int| from <= k < cycles.len() ==> is_cycle(edges, #[trigger] cycles[k])
}

/// `later` keeps every rank of `earlier`.
pub open spec fn rank_extends(earlier: Map<LockId, int>, later: Map<LockId, int>) -> bool {
    forall|x: LockId| #[trigger] earlier.contains_key(x) ==> later.contains_key(x) && later[x] == earlier[x]
}

/// The position of the smallest lock of `cycle` (the first, where it occurs
/// more than once).
pub open spec fn first_min_index(cycle: Seq<LockId>) -> int
    decreases cycle.len(),
{
    if cycle.len() <= 1 {
        0
    } else {
        let k = first_min_index(cycle.drop_last());
        if cycle.last() < cycle[k] {
            cycle.len() - 1
        } else {
            k
        }
    }
}

/// The position after `i` in `cycle`, going round from the last to the
/// first.
pub open spec fn next_index(cycle: Seq<LockId>, i: int) -> int {
    if i + 1 < cycle.len() {
        i + 1
    } else {
        0
    }
}

/// The key under which a cycle is reported once: its smallest lock and the
/// lock that follows it round the cycle. Every rotation of a cycle has the
/// same key (see [`law_rotation_same_key`]).
pub open spec fn cycle_key(cycle: Seq<LockId>) -> (LockId, LockId) {
    let m = first_min_index(cycle);
    (cycle[m], cycle[next_index(cycle, m)])
}

/// `cycle` started at position `r` instead of 0.
pub open spec fn rotation(cycle: Seq<LockId>, r: int) -> Seq<LockId> {
    cycle.subrange(r, cycle.len() as int) + cycle.subrange(0, r)
}

/// `other` is `cycle` started at another of its positions.
pub open spec fn is_rotation(cycle: Seq<LockId>, other: Seq<LockId>) -> bool {
    exists|r: int| 0 <= r < cycle.len() && other == #[trigger] rotation(cycle, r)
}

/// The keys of the cycles through two locks or more in `cycles`.
pub open spec fn long_cycle_keys(cycles: Seq<Seq<LockId>>) -> Set<(LockId, LockId)> {
    Set::new(
        |k: (LockId, LockId)|
            exists|j: int| 0 <= j < cycles.len() && #[trigger] cycles[j].len() >= 2 && k == cycle_key(cycles[j]),
    )
}

/// The cycles of `cycles` that get a report, in order: those through two
/// locks or more whose key was reported neither before (`reported`) nor by an
/// earlier cycle of the list.
pub open spec fn fresh_cycles(cycles: Seq<Seq<LockId>>, reported: Set<(LockId, LockId)>) -> Seq<Seq<LockId>>
    decreases cycles.len(),
{
    if cycles.len() == 0 {
        Seq::empty()
    } else {
        let earlier = cycles.drop_last();
        let cycle = cycles.last();
        if cycle.len() >= 2 && !reported.union(long_cycle_keys(earlier)).contains(cycle_key(cycle)) {
            fresh_cycles(earlier, reported).push(cycle)
        } else {
            fresh_cycles(earlier, reported)
        }
    }
}

/// Every cycle of `edges` through two locks or more shares a lock with a
/// cycle through two locks or more of `cycles`.
#[verifier::opaque]
pub open spec fn every_long_cycle_met(edges: Set<(LockId, LockId)>, cycles: Seq<Seq<LockId>>) -> bool {
    forall|c: Seq<LockId>|
        #[trigger] is_cycle(edges, c) && c.len() >= 2 ==> exists|i: int|
            0 <= i < c.len() && #[trigger] on_long_cycle(cycles, c[i])
}

/// For every two distinct locks with an edge each way between them, some
/// cycle of `cycles` goes through both.
#[verifier::opaque]
pub open spec fn inversions_met(edges: Set<(LockId, LockId)>, cycles: Seq<Seq<LockId>>) -> bool {
    forall|a: LockId, b: LockId|
        a != b && #[trigger] edges.contains((a, b)) && #[trigger] edges.contains((b, a)) ==> cycle_through(
            cycles,
            a,
            b,
        )
}

/// `cycles` is a possible outcome of the cycle search on `edges`: cycles of
/// the graph, at least one where the graph has one, one through every cycle
/// through two locks or more, in that they share a lock, and one through
/// both locks of every two-way pair of edges.
pub open spec fn cycles_found(edges: Set<(LockId, LockId)>, cycles: Seq<Seq<LockId>>) -> bool {
    &&& all_cycles(edges, cycles)
    &&& has_cycle(edges) <==> cycles.len() > 0
    &&& has_long_cycle(edges) <==> found_long(cycles)
    &&& every_long_cycle_met(edges, cycles)
    &&& inversions_met(edges, cycles)
}

/// The locks of `cycle` that have an acquisition event, in order.
pub open spec fn chain_locks(cycle: Seq<LockId>, events: Map<LockId, LockEvent>) -> Seq<LockId> {
    cycle.filter(|l: LockId| events.contains_key(l))
}

/// `entry` describes the acquisition `event` of `lock_id`.
pub open spec fn describes_entry(entry: LockChainEntry, lock_id: LockId, event: LockEvent) -> bool {
    &&& entry.lock_id == lock_id
    &&& entry.lock_type == event.lock_type
    &&& entry.thread_id == event.thread_id
    &&& entry.backtrace@ == event.backtrace@
}

/// `report` describes `cycle`: its length, and an entry for each lock of the
/// cycle that has an acquisition event, in the cycle's order.
pub open spec fn describes_cycle(report: DeadlockReport, cycle: Seq<LockId>, events: Map<LockId, LockEvent>) -> bool {
    let locks = chain_locks(cycle, events);
    &&& report.cycle_length == cycle.len()
    &&& report.lock_chain@.len() == locks.len()
    &&& forall|k: int|
        0 <= k < locks.len() ==> describes_entry(#[trigger] report.lock_chain@[k], locks[k], events[locks[k]])
}

/// Each report describes the cycle at its position.
pub open spec fn describes_cycles(
    reports: Seq<DeadlockReport>,
    cycles: Seq<Seq<LockId>>,
    events: Map<LockId, LockEvent>,
) -> bool {
    &&& reports.len() == cycles.len()
    &&& forall|k: int| 0 <= k < cycles.len() ==> describes_cycle(#[trigger] reports[k], cycles[k], events)
}

/// A list of cycles that only grew keeps whether it has a long one.
proof fn lemma_found_long_grows(earlier: Seq<Seq<LockId>>, later: Seq<Seq<LockId>>)
    requires
        earlier.len() <= later.len(),
        later.subrange(0, earlier.len() as int) == earlier,
        found_long(earlier),
    ensures
        found_long(later),
{
    let k = choose|k: int| 0 <= k < earlier.len() && #[trigger] earlier[k].len() >= 2;
    assert(later.subrange(0, earlier.len() as int)[k] == later[k]);
}

/// A list of cycles that only grew keeps the nodes that lie on its cycles
/// through two locks or more.
proof fn lemma_on_long_grows(earlier: Seq<Seq<LockId>>, later: Seq<Seq<LockId>>)
    requires
        earlier.len() <= later.len(),
        later.subrange(0, earlier.len() as int) == earlier,
    ensures
        forall|u: LockId| on_long_cycle(earlier, u) ==> on_long_cycle(later, u),
        forall|u: LockId, v: LockId| cycle_through(earlier, u, v) ==> cycle_through(later, u, v),
        found_long(earlier) ==> found_long(later),
{
    assert forall|u: LockId, v: LockId| cycle_through(earlier, u, v) implies cycle_through(later, u, v) by {
        let k = choose|k: int| 0 <= k < earlier.len() && #[trigger] earlier[k].contains(u) && earlier[k].contains(v);
        assert(later.subrange(0, earlier.len() as int)[k] == later[k]);
        assert(later[k].contains(u));
    }
    assert forall|u: LockId| on_long_cycle(earlier, u) implies on_long_cycle(later, u) by {
        let k = choose|k: int| 0 <= k < earlier.len() && earlier[k].len() >= 2 && #[trigger] earlier[k].contains(u);
        assert(later.subrange(0, earlier.len() as int)[k] == later[k]);
        assert(later[k].contains(u));
    }
    if found_long(earlier) {
        lemma_found_long_grows(earlier, later);
    }
}

/// Pushing onto a list of vectors pushes onto its views.
proof fn lemma_cycle_views_push(cycles: Seq<Vec<LockId>>, c: Vec<LockId>)
    ensures
        cycle_views(cycles.push(c)) == cycle_views(cycles).push(c@),
{
    assert(cycle_views(cycles.push(c)) =~= cycle_views(cycles).push(c@));
}

/// Removing a node from the unexplored part of a finite set shrinks it.
proof fn lemma_unvisited_shrinks(dom: Set<LockId>, before: Set<LockId>, after: Set<LockId>, x: LockId)
    requires
        dom.finite(),
        dom.contains(x),
        !before.contains(x),
        before.subset_of(after),
        after.contains(x),
    ensures
        dom.difference(after).len() < dom.difference(before).len(),
{
    let big = dom.difference(before);
    let small = dom.difference(after);
    assert(small.subset_of(big.remove(x)));
    vstd::set_lib::lemma_len_subset(small, big.remove(x));
}

/// No cycle of `cycles` is a rotation of an earlier one.
pub open spec fn no_repeated_cycle(cycles: Seq<Seq<LockId>>) -> bool {
    forall|i: int, j: int| 0 <= i < j < cycles.len() ==> !#[trigger] is_rotation(cycles[i], cycles[j])
}

/// No cycle of `cycles` is a rotation of a cycle without repeated locks
/// whose key is in `reported`.
pub open spec fn none_reported_before(cycles: Seq<Seq<LockId>>, reported: Set<(LockId, LockId)>) -> bool {
    forall|k: int, c: Seq<LockId>|
        0 <= k < cycles.len() && c.no_duplicates() && reported.contains(cycle_key(c)) ==> !#[trigger] is_rotation(
            c,
            cycles[k],
        )
}

/// `post` is the detector `pre` after a search of the lock-order graph
/// `edges` (with the acquisition events `events`) that gave `reports`: for
/// some outcome `cycles` of the cycle search, the keys of its cycles through
/// two locks or more are marked as reported, and the reports describe, in
/// order, those of its cycles that were fresh; of those, none is a rotation
/// of another, nor of a cycle reported before.
pub open spec fn deadlock_checked(
    pre: DeadlockDetector,
    post: DeadlockDetector,
    edges: Set<(LockId, LockId)>,
    events: Map<LockId, LockEvent>,
    reports: Seq<DeadlockReport>,
) -> bool {
    exists|cycles: Seq<Seq<LockId>>|
        {
            &&& #[trigger] cycles_found(edges, cycles)
            &&& post.reported_keys() == pre.reported_keys().union(long_cycle_keys(cycles))
            &&& describes_cycles(reports, fresh_cycles(cycles, pre.reported_keys()), events)
            &&& no_repeated_cycle(fresh_cycles(cycles, pre.reported_keys()))
            &&& none_reported_before(fresh_cycles(cycles, pre.reported_keys()), pre.reported_keys())
        }
}

pub struct DeadlockDetector {
    reported: CycleKeySet,
}

#[derive(Debug, Clone)]
pub struct DeadlockReport {
    pub cycle_length: usize,
    pub lock_chain: Vec<LockChainEntry>,
}

#[derive(Debug, Clone)]
pub struct LockChainEntry {
    pub lock_id: LockId,
    pub lock_type: LockType,
    pub thread_id: usize,
    pub backtrace: Vec<String>,
}

impl DeadlockDetector {
    /// Explores `node`, reached from the last node of `path`: a node on the
    /// stack closes a cycle, which is recorded; a visited node is skipped; a
    /// new node is explored through each of its edges and then finished.
    ///
    /// Whatever was visited before, every vector it appends is a cycle of the
    /// graph and the stack comes back as it was. Where the search so far is
    /// in the state that [`search_state`] describes, it stays so, with the
    /// node finished after all the nodes it reaches.
    fn dfs_cycle(
        &self,
        node: LockId,
        graph: &WaitGraph,
        visited: &mut HashSet<LockId>,
        rec_stack: &mut HashSet<LockId>,
        path: &mut Vec<LockId>,
        cycles: &mut Vec<Vec<LockId>>,
        Ghost(rank): Ghost<Map<LockId, int>>,
        Ghost(clock): Ghost<int>,
    ) -> (out: Ghost<(Map<LockId, int>, int)>)
        requires
            stack_ok(wait_edges(graph@), old(rec_stack)@, old(path)@),
            old(rec_stack)@.subset_of(old(visited)@),
            old(path)@.len() > 0 ==> wait_edges(graph@).contains((old(path)@.last(), node)),
        ensures
            final(path)@ == old(path)@,
            final(rec_stack)@ == old(rec_stack)@,
            old(visited)@.subset_of(final(visited)@),
            final(visited)@.contains(node),
            old(cycles)@.len() <= final(cycles)@.len(),
            final(cycles)@.subrange(0, old(cycles)@.len() as int) == old(cycles)@,
            cycles_appended(wait_edges(graph@), old(cycles)@.len() as int, cycle_views(final(cycles)@)),
            search_state(
                wait_edges(graph@),
                old(visited)@,
                old(rec_stack)@,
                old(path)@,
                cycle_views(old(cycles)@),
                rank,
                clock,
            ) ==> {
                &&& search_state(
                    wait_edges(graph@),
                    final(visited)@,
                    final(rec_stack)@,
                    final(path)@,
                    cycle_views(final(cycles)@),
                    out@.0,
                    out@.1,
                )
                &&& rank_extends(rank, out@.0)
                &&& clock <= out@.1
            },
            old(rec_stack)@.contains(node) ==> final(cycles)@.len() > 0,
            old(rec_stack)@.contains(node) && node != old(path)@.last() ==> cycle_through(
                cycle_views(final(cycles)@),
                node,
                old(path)@.last(),
            ),
            old(rec_stack)@.contains(node) && node != old(path)@.last() ==> on_long_cycle(
                cycle_views(final(cycles)@),
                old(path)@.last(),
            ),
        decreases graph@.dom().difference(old(visited)@).len(),
    {
        let ghost edges = wait_edges(graph@);
        let ghost ss = search_state(
            edges,
            old(visited)@,
            old(rec_stack)@,
            old(path)@,
            cycle_views(old(cycles)@),
            rank,
            clock,
        );
        if rec_stack.contains(&node) {
            let len = path.len();
            let mut start: usize = 0;
            while start < len && path[start] != node
                invariant
                    0 <= start <= len,
                    len == path@.len(),
                    path@.contains(node),
                    forall|k: int| 0 <= k < start ==> path@[k] != node,
                decreases len - start,
            {
                start = start + 1;
            }
            if start < len {
                let mut cycle: Vec<LockId> = Vec::new();
                let mut k = start;
                while k < len
                    invariant
                        start <= k <= len,
                        len == path@.len(),
                        cycle@ == path@.subrange(start as int, k as int),
                    decreases len - k,
                {
                    cycle.push(path[k]);
                    k = k + 1;
                }
                proof {
                    let p = path@;
                    let c = cycle@;
                    assert(c =~= p.subrange(start as int, len as int));
                    assert(c.no_duplicates()) by {
                        assert forall|a: int, b: int| 0 <= a < c.len() && 0 <= b < c.len() && a != b implies c[a]
                            != c[b] by {
                            assert(c[a] == p[start + a]);
                            assert(c[b] == p[start + b]);
                        }
                    }
                    assert forall|i: int| 0 <= i < c.len() - 1 implies #[trigger] path_step(edges, c, i) by {
                        assert(path_step(edges, p, start + i));
                    }
                    assert(c[0] == node);
                    assert(c.last() == p.last());
                    if node != p.last() {
                        assert(start < len - 1);
                    }
                    lemma_cycle_views_push(cycles@, cycle);
                }
                cycles.push(cycle);
                proof {
                    let cs = cycle_views(cycles@);
                    assert(cycles@.subrange(0, cycles@.len() - 1) =~= old(cycles)@);
                    assert(cs[cs.len() - 1] == cycle@);
                    if node != path@.last() {
                        assert(cs[cs.len() - 1].len() >= 2);
                        assert(cs[cs.len() - 1][cs[cs.len() - 1].len() - 1] == path@.last());
                        assert(cs[cs.len() - 1].contains(path@.last()));
                        assert(cs[cs.len() - 1][0] == node);
                        assert(cs[cs.len() - 1].contains(node));
                        assert(cycle_through(cs, node, path@.last()));
                    }
                    assert(cycles_appended(edges, old(cycles)@.len() as int, cs));
                    if ss {
                        assert forall|k: int| 0 <= k < cs.len() implies is_cycle(edges, #[trigger] cs[k]) by {
                            if k < cs.len() - 1 {
                                assert(cs[k] == cycle_views(old(cycles)@)[k]);
                            }
                        }
                    }
                    assert(cs.subrange(0, old(cycles)@.len() as int) =~= cycle_views(old(cycles)@));
                    lemma_on_long_grows(cycle_views(old(cycles)@), cs);
                }
            }
            return Ghost((rank, clock));
        }
        if visited.contains(&node) {
            proof {
                assert(cycles@.subrange(0, old(cycles)@.len() as int) =~= old(cycles)@);
            }
            return Ghost((rank, clock));
        }
        visited.insert(node);
        rec_stack.insert(node);
        path.push(node);
        proof {
            let p = path@;
            assert(p.drop_last() == old(path)@);
            assert forall|i: int| 0 <= i < p.len() - 1 implies #[trigger] path_step(edges, p, i) by {
                if i < p.len() - 2 {
                    assert(path_step(edges, old(path)@, i));
                }
            }
            assert(rec_stack@ =~= p.to_set()) by {
                assert forall|x: LockId| rec_stack@.contains(x) <==> p.to_set().contains(x) by {
                    if x != node {
                        if old(path)@.contains(x) {
                            let j = choose|j: int| 0 <= j < old(path)@.len() && old(path)@[j] == x;
                            assert(p[j] == x);
                        }
                        if p.contains(x) {
                            let j = choose|j: int| 0 <= j < p.len() && p[j] == x;
                            assert(j < p.len() - 1);
                            assert(old(path)@[j] == x);
                        }
                    } else {
                        assert(p[p.len() - 1] == node);
                    }
                }
            }
            if ss {
                assert(visited@ =~= rank.dom().union(rec_stack@));
            }
            assert(cycles@.subrange(0, old(cycles)@.len() as int) =~= old(cycles)@);
        }
        let ghost mut rank_cur = rank;
        let ghost mut clock_cur = clock;
        match graph.get(&node) {
            Some(neighbors) => {
                let n = neighbors.len();
                let mut i: usize = 0;
                while i < n
                    invariant
                        0 <= i <= n,
                        n == neighbors@.len(),
                        graph@.contains_key(node),
                        graph@[node] == *neighbors,
                        edges == wait_edges(graph@),
                        stack_ok(edges, rec_stack@, path@),
                        ss ==> search_state(edges, visited@, rec_stack@, path@, cycle_views(cycles@), rank_cur, clock_cur),
                        path@ == old(path)@.push(node),
                        rec_stack@ == old(rec_stack)@.insert(node),
                        !old(visited)@.contains(node),
                        old(visited)@.insert(node).subset_of(visited@),
                        old(rec_stack)@.subset_of(old(visited)@),
                        ss ==> rank_extends(rank, rank_cur),
                        ss ==> clock <= clock_cur,
                        old(cycles)@.len() <= cycles@.len(),
                        cycles@.subrange(0, old(cycles)@.len() as int) == old(cycles)@,
                        cycles_appended(edges, old(cycles)@.len() as int, cycle_views(cycles@)),
                        forall|j: int|
                            0 <= j < i ==> {
                                let v = #[trigger] neighbors@[j];
                                &&& ss && !cycle_through(cycle_views(cycles@), node, v) ==> (v == node || (rank_cur.contains_key(v)
                                    && rank_cur[v] < clock_cur))
                                &&& v == node ==> cycles@.len() > 0
                            },
                    decreases n - i,
                {
                    let neighbor = neighbors[i];
                    proof {
                        assert(edges.contains((node, neighbor)));
                        lemma_unvisited_shrinks(graph@.dom(), old(visited)@, visited@, node);
                    }
                    let ghost cycles_before = cycles@;
                    let ghost rank_before = rank_cur;
                    let ghost clock_before = clock_cur;
                    let ghost on_stack = rec_stack@.contains(neighbor);
                    let Ghost(next) = self.dfs_cycle(
                        neighbor,
                        graph,
                        visited,
                        rec_stack,
                        path,
                        cycles,
                        Ghost(rank_cur),
                        Ghost(clock_cur),
                    );
                    proof {
                        rank_cur = next.0;
                        clock_cur = next.1;
                        assert(cycles@.subrange(0, old(cycles)@.len() as int) =~= old(cycles)@) by {
                            assert(cycles@.subrange(0, cycles_before.len() as int) == cycles_before);
                            assert forall|k: int| 0 <= k < old(cycles)@.len() implies cycles@[k]
                                == old(cycles)@[k] by {
                                assert(cycles@.subrange(0, cycles_before.len() as int)[k] == cycles@[k]);
                                assert(cycles_before.subrange(0, old(cycles)@.len() as int)[k]
                                    == cycles_before[k]);
                            }
                        }
                        assert(cycle_views(cycles@).subrange(0, cycles_before.len() as int) =~= cycle_views(
                            cycles_before,
                        )) by {
                            assert forall|k: int| 0 <= k < cycles_before.len() implies cycles@[k]
                                == cycles_before[k] by {
                                assert(cycles@.subrange(0, cycles_before.len() as int)[k] == cycles@[k]);
                            }
                        }
                        lemma_on_long_grows(cycle_views(cycles_before), cycle_views(cycles@));
                        assert(cycles_appended(edges, old(cycles)@.len() as int, cycle_views(cycles@))) by {
                            assert forall|k: int|
                                old(cycles)@.len() <= k < cycles@.len() implies is_cycle(
                                edges,
                                #[trigger] cycle_views(cycles@)[k],
                            ) by {
                                if k < cycles_before.len() {
                                    assert(cycles@.subrange(0, cycles_before.len() as int)[k] == cycles@[k]);
                                    assert(cycle_views(cycles_before)[k] == cycle_views(cycles@)[k]);
                                }
                            }
                        }
                        assert forall|j: int| 0 <= j < i + 1 implies {
                            let v = #[trigger] neighbors@[j];
                            &&& ss && !cycle_through(cycle_views(cycles@), node, v) ==> (v == node || (rank_cur.contains_key(v)
                                && rank_cur[v] < clock_cur))
                            &&& v == node ==> cycles@.len() > 0
                        } by {
                            let v = neighbors@[j];
                            if j < i {
                                if v == node {
                                    assert(cycles_before.len() > 0);
                                }
                                if ss && !cycle_through(cycle_views(cycles@), node, v) && v != node {
                                    assert(!cycle_through(cycle_views(cycles_before), node, v));
                                    assert(rank_before.contains_key(v));
                                }
                            } else {
                                if ss && !on_stack {
                                    assert(rank_cur.contains_key(v));
                                } else if on_stack {
                                    assert(path@.last() == node);
                                }
                                if v == node {
                                    assert(on_stack);
                                }
                            }
                        }
                    }
                    i = i + 1;
                }
            },
            None => {},
        }
        let ghost cycles_done = cycle_views(cycles@);
        let ghost rank_done = rank_cur;
        let ghost clock_done = clock_cur;
        path.pop();
        rec_stack.remove(&node);
        let ghost new_rank = rank_done.insert(node, clock_done);
        proof {
            assert(path@ =~= old(path)@);
            assert(rec_stack@ =~= old(rec_stack)@);
            assert(!old(rec_stack)@.contains(node));
        }
        proof {
            if ss {
            assert(visited@ =~= new_rank.dom().union(rec_stack@));
            assert(new_rank.dom().disjoint(rec_stack@));
            assert forall|x: LockId| #[trigger] rank.contains_key(x) implies new_rank.contains_key(x)
                && new_rank[x] == rank[x] by {
                assert(rank_done.contains_key(x));
            }
            // The node is finished after all its successors.
            {
                assert forall|u: LockId, v: LockId|
                    #[trigger] edges.contains((u, v)) && new_rank.contains_key(u) && v != u && !cycle_through(
                        cycles_done,
                        u,
                        v,
                    ) implies new_rank.contains_key(v) && new_rank[v] < new_rank[u] by {
                    if u == node {
                        let neighbors = graph@[node]@;
                        let j = choose|j: int| 0 <= j < neighbors.len() && neighbors[j] == v;
                        assert(neighbors[j] == v);
                    } else {
                        assert(rank_done.contains_key(v) && rank_done[v] < rank_done[u]);
                    }
                }
            }
            if cycles_done.len() == 0 {
                assert forall|u: LockId| #[trigger] new_rank.contains_key(u) implies !edges.contains((u, u)) by {
                    if u == node && edges.contains((u, u)) {
                        let neighbors = graph@[node]@;
                        let j = choose|j: int| 0 <= j < neighbors.len() && neighbors[j] == u;
                        assert(neighbors[j] == node);
                    }
                }
            }
            }
        }
        Ghost((new_rank, clock_done + 1))
    }

    /// The wait-for graph of the tracker's lock-order graph: an edge for each
    /// of its edges, each listed once under its source. The order of the
    /// lists follows the order in which the tracker's map hands out its keys.
    fn build_wait_graph(&self, tracker: &GlobalTracker) -> (graph: WaitGraph)
        ensures
            wait_edges(graph@) == tracker.edges().dom(),
            forall|a: LockId|
                #[trigger] graph@.contains_key(a) ==> graph@[a]@.len() > 0 && graph@[a]@.no_duplicates(),
    {
        let keys = lock_graph_keys(&tracker.lock_graph);
        let mut graph: WaitGraph = HashMap::new();
        let n = keys.len();
        let mut i: usize = 0;
        while i < n
            invariant
                0 <= i <= n,
                n == keys@.len(),
                keys@.no_duplicates(),
                forall|e: (LockId, LockId)| #[trigger] wait_edges(graph@).contains(e) <==> keys@.take(i as int).contains(e),
                forall|a: LockId|
                    #[trigger] graph@.contains_key(a) ==> graph@[a]@.len() > 0 && graph@[a]@.no_duplicates(),
            decreases n - i,
        {
            let (from, to) = keys[i];
            let ghost before = graph@;
            let mut targets = match graph.remove(&from) {
                Some(v) => v,
                None => Vec::new(),
            };
            proof {
                assert(!keys@.take(i as int).contains((from, to))) by {
                    if keys@.take(i as int).contains((from, to)) {
                        let j = choose|j: int| 0 <= j < i && keys@.take(i as int)[j] == (from, to);
                        assert(keys@[j] == keys@[i as int]);
                    }
                }
                assert(!wait_edges(before).contains((from, to)));
                assert(!targets@.contains(to));
            }
            let ghost t0 = targets@;
            assert(t0 == (if before.contains_key(from) { before[from]@ } else { Seq::<LockId>::empty() }));
            targets.push(to);
            graph.insert(from, targets);
            proof {
                let post = keys@.take(i + 1);
                assert(post =~= keys@.take(i as int).push((from, to)));
                assert forall|e: (LockId, LockId)| #[trigger] wait_edges(graph@).contains(e) <==> post.contains(e) by {
                    assert(wait_edges(before).contains(e) <==> keys@.take(i as int).contains(e));
                    assert(post.contains(e) <==> (keys@.take(i as int).contains(e) || e == (from, to))) by {
                        if post.contains(e) && e != (from, to) {
                            let j = choose|j: int| 0 <= j < post.len() && post[j] == e;
                            assert(keys@.take(i as int)[j] == e);
                        }
                        if keys@.take(i as int).contains(e) {
                            let j = choose|j: int| 0 <= j < i && keys@.take(i as int)[j] == e;
                            assert(post[j] == e);
                        }
                        if e == (from, to) {
                            assert(post[i as int] == e);
                        }
                    }
                    if e.0 == from {
                        assert(graph@[from]@ == targets@);
                        assert(targets@ == t0.push(to));
                        if e.1 != to {
                            assert(targets@.contains(e.1) <==> t0.contains(e.1)) by {
                                if targets@.contains(e.1) {
                                    let j = choose|j: int| 0 <= j < targets@.len() && targets@[j] == e.1;
                                    assert(t0[j] == e.1);
                                }
                                if t0.contains(e.1) {
                                    let j = choose|j: int| 0 <= j < t0.len() && t0[j] == e.1;
                                    assert(targets@[j] == e.1);
                                }
                            }
                        } else {
                            assert(targets@[targets@.len() - 1] == to);
                        }
                        if post.contains(e) && e != (from, to) {
                            let j = choose|j: int| 0 <= j < post.len() && post[j] == e;
                            assert(keys@.take(i as int)[j] == e);
                        }
                    } else {
                        assert(graph@.contains_key(e.0) == before.contains_key(e.0));
                        if post.contains(e) {
                            let j = choose|j: int| 0 <= j < post.len() && post[j] == e;
                            assert(keys@.take(i as int)[j] == e);
                        }
                        if keys@.take(i as int).contains(e) {
                            let j = choose|j: int| 0 <= j < i && keys@.take(i as int)[j] == e;
                            assert(post[j] == e);
                        }
                    }
                }
                assert(targets@.no_duplicates()) by {
                    let old_targets = t0;
                    assert forall|a: int, b: int| 0 <= a < targets@.len() && 0 <= b < targets@.len() && a != b implies targets@[a] != targets@[b] by {
                        if a == targets@.len() - 1 {
                            assert(old_targets.contains(targets@[b]) || b == a);
                        } else if b == targets@.len() - 1 {
                            assert(old_targets.contains(targets@[a]));
                        }
                    }
                }
            }
            i = i + 1;
        }
        proof {
            assert(keys@.take(n as int) =~= keys@);
            assert forall|e: (LockId, LockId)| #[trigger] wait_edges(graph@).contains(e) <==> tracker.edges().dom().contains(e) by {
                assert(keys@.to_set().contains(e) <==> keys@.contains(e));
            }
            assert(wait_edges(graph@) =~= tracker.edges().dom());
        }
        graph
    }

    /// The cycles of `graph`, found by a depth-first search from each of its
    /// nodes in turn: every entry is a cycle, one is found when the graph has
    /// one, and one through two locks or more when the graph has one. Which
    /// cycles are found depends on the order in which the map hands out its
    /// keys.
    fn find_cycles(&self, graph: &WaitGraph) -> (cycles: Vec<Vec<LockId>>)
        ensures
            all_cycles(wait_edges(graph@), cycle_views(cycles@)),
            has_cycle(wait_edges(graph@)) <==> cycles@.len() > 0,
            has_long_cycle(wait_edges(graph@)) <==> found_long(cycle_views(cycles@)),
            every_long_cycle_met(wait_edges(graph@), cycle_views(cycles@)),
            inversions_met(wait_edges(graph@), cycle_views(cycles@)),
    {
        let ghost edges = wait_edges(graph@);
        let mut cycles: Vec<Vec<LockId>> = Vec::new();
        let mut visited: HashSet<LockId> = HashSet::new();
        let mut rec_stack: HashSet<LockId> = HashSet::new();
        let mut path: Vec<LockId> = Vec::new();
        let ghost mut rank: Map<LockId, int> = Map::empty();
        let ghost mut clock: int = 0;
        proof {
            assert(cycle_views(cycles@) =~= Seq::<Seq<LockId>>::empty());
            assert(rec_stack@ =~= path@.to_set());
            assert(visited@ =~= rank.dom().union(rec_stack@));
        }
        for node in iter: graph.keys()
            invariant
                edges == wait_edges(graph@),
                search_state(edges, visited@, rec_stack@, path@, cycle_views(cycles@), rank, clock),
                path@ == Seq::<LockId>::empty(),
                forall|x: LockId|
                    #[trigger] graph@.contains_key(x) ==> visited@.contains(x) || exists|k: int|
                        iter.index() <= k < iter.seq().len() && *iter.seq()[k] == x,
        {
            let Ghost(next) = self.dfs_cycle(
                *node,
                graph,
                &mut visited,
                &mut rec_stack,
                &mut path,
                &mut cycles,
                Ghost(rank),
                Ghost(clock),
            );
            proof {
                rank = next.0;
                clock = next.1;
            }
        }
        proof {
            assert forall|x: LockId| graph@.contains_key(x) implies rank.contains_key(x) by {
                assert(visited@.contains(x));
            }
            if !found_long(cycle_views(cycles@)) && has_long_cycle(edges) {
                let c = choose|c: Seq<LockId>| #[trigger] is_cycle(edges, c) && c.len() >= 2;
                lemma_long_cycle_met(edges, rank, cycle_views(cycles@), c);
            }
            if cycles@.len() == 0 && has_cycle(edges) {
                let c = choose|c: Seq<LockId>| #[trigger] is_cycle(edges, c);
                if c.len() >= 2 {
                    lemma_long_cycle_met(edges, rank, cycle_views(cycles@), c);
                } else {
                    assert(path_step(edges, c, 0) || edges.contains((c.last(), c[0])));
                    assert(c.last() == c[0]);
                }
            }
            if found_long(cycle_views(cycles@)) {
                let k = choose|k: int| 0 <= k < cycle_views(cycles@).len() && #[trigger] cycle_views(cycles@)[k].len() >= 2;
                assert(is_cycle(edges, cycle_views(cycles@)[k]));
            }
            if cycles@.len() > 0 {
                assert(is_cycle(edges, cycle_views(cycles@)[0]));
            }
            assert forall|c: Seq<LockId>| #[trigger] is_cycle(edges, c) && c.len() >= 2 implies exists|i: int|
                0 <= i < c.len() && #[trigger] on_long_cycle(cycle_views(cycles@), c[i]) by {
                lemma_long_cycle_met(edges, rank, cycle_views(cycles@), c);
            }
            reveal(every_long_cycle_met);
            assert forall|a: LockId, b: LockId|
                a != b && #[trigger] edges.contains((a, b)) && #[trigger] edges.contains((b, a)) implies cycle_through(
                cycle_views(cycles@),
                a,
                b,
            ) by {
                assert(rank.contains_key(a));
                assert(rank.contains_key(b));
                lemma_through_is_long(cycle_views(cycles@), b, a);
            }
            reveal(inversions_met);
        }
        cycles
    }
}


/// The key of `cycle`: its smallest lock and the lock after it.
fn cycle_key_of(cycle: &Vec<LockId>) -> (k: (LockId, LockId))
    requires
        cycle@.len() >= 2,
    ensures
        k == cycle_key(cycle@),
{
    let n = cycle.len();
    let mut best: usize = 0;
    let mut i: usize = 1;
    while i < n
        invariant
            1 <= i <= n,
            n == cycle@.len(),
            best == first_min_index(cycle@.take(i as int)),
            best < i,
        decreases n - i,
    {
        proof {
            assert(cycle@.take(i + 1).drop_last() =~= cycle@.take(i as int));
            assert(cycle@.take(i + 1)[best as int] == cycle@[best as int]);
        }
        if cycle[i] < cycle[best] {
            best = i;
        }
        i = i + 1;
    }
    proof {
        assert(cycle@.take(n as int) =~= cycle@);
    }
    let next = if best + 1 < n {
        best + 1
    } else {
        0
    };
    (cycle[best], cycle[next])
}

impl DeadlockDetector {
    /// The keys of the cycles reported so far.
    pub closed spec fn reported_keys(&self) -> Set<(LockId, LockId)> {
        cycle_key_entries(self.reported)
    }

    pub fn new() -> (r: Self)
        ensures
            r.reported_keys() == Set::<(LockId, LockId)>::empty(),
    {
        DeadlockDetector { reported: cycle_keys_new() }
    }

    /// Searches the tracker's lock-order graph for cycles and reports each
    /// cycle through two locks or more whose key was not reported before.
    ///
    /// The cycles found depend on the order in which the graph is walked; for
    /// whatever outcome of the search, the reports are those that
    /// [`Self::report_cycles`] gives for it.
    pub fn check_deadlock(&mut self, tracker: &GlobalTracker) -> (r: Vec<DeadlockReport>)
        ensures
            deadlock_checked(*old(self), *final(self), tracker.edges().dom(), tracker.events(), r@),
    {
        let graph = self.build_wait_graph(tracker);
        let cycles = self.find_cycles(&graph);
        let ghost found = cycle_views(cycles@);
        let reports = self.report_cycles(tracker, cycles);
        proof {
            assert(cycles_found(tracker.edges().dom(), found));
            lemma_fresh_no_rotations(tracker.edges().dom(), found, old(self).reported_keys());
        }
        reports
    }

    /// Reports, in order, each cycle of `cycles` through two locks or more
    /// whose key (its smallest lock and the next) was not reported before,
    /// and marks the keys of all such cycles as reported.
    pub fn report_cycles(&mut self, tracker: &GlobalTracker, cycles: Vec<Vec<LockId>>) -> (r: Vec<DeadlockReport>)
        ensures
            final(self).reported_keys() == old(self).reported_keys().union(long_cycle_keys(cycle_views(cycles@))),
            describes_cycles(
                r@,
                fresh_cycles(cycle_views(cycles@), old(self).reported_keys()),
                tracker.events(),
            ),
    {
        let ghost all = cycle_views(cycles@);
        let ghost reported0 = old(self).reported_keys();
        let mut reports: Vec<DeadlockReport> = Vec::new();
        proof {
            assert(all.take(0) =~= Seq::<Seq<LockId>>::empty());
            assert(long_cycle_keys(all.take(0)) =~= Set::<(LockId, LockId)>::empty());
            assert(self.reported_keys() =~= reported0.union(long_cycle_keys(all.take(0))));
        }
        for cycle in iter: cycles
            invariant
                all == cycle_views(iter.seq()),
                self.reported_keys() == reported0.union(long_cycle_keys(all.take(iter.index()))),
                describes_cycles(reports@, fresh_cycles(all.take(iter.index()), reported0), tracker.events()),
        {
            let ghost i = iter.index();
            proof {
                assert(all.take(i + 1).drop_last() =~= all.take(i));
                assert(all.take(i + 1).last() == cycle@);
                lemma_long_cycle_keys_push(all.take(i), cycle@);
                assert(all.take(i + 1) =~= all.take(i).push(cycle@));
            }
            if cycle.len() >= 2 {
                let key = cycle_key_of(&cycle);
                if !cycle_keys_contains(&self.reported, key) {
                    cycle_keys_insert(&mut self.reported, key);
                    let report = self.create_report(tracker, cycle);
                    reports.push(report);
                    proof {
                        assert(self.reported_keys() =~= reported0.union(long_cycle_keys(all.take(i + 1))));
                    }
                } else {
                    proof {
                        assert(self.reported_keys() =~= reported0.union(long_cycle_keys(all.take(i + 1))));
                    }
                }
            } else {
                proof {
                    assert(self.reported_keys() =~= reported0.union(long_cycle_keys(all.take(i + 1))));
                }
            }
        }
        proof {
            assert(all.take(all.len() as int) =~= all);
        }
        reports
    }

    /// A report of `cycle`: its length, and for each lock of the cycle that
    /// has an acquisition event, the event's lock type, thread and backtrace.
    fn create_report(&self, tracker: &GlobalTracker, cycle: Vec<LockId>) -> (r: DeadlockReport)
        ensures
            describes_cycle(r, cycle@, tracker.events()),
    {
        let ghost events = tracker.events();
        let mut chain: Vec<LockChainEntry> = Vec::new();
        let n = cycle.len();
        let mut i: usize = 0;
        while i < n
            invariant
                0 <= i <= n,
                n == cycle@.len(),
                events == tracker.events(),
                chain@.len() == chain_locks(cycle@.take(i as int), events).len(),
                forall|k: int|
                    0 <= k < chain@.len() ==> describes_entry(
                        #[trigger] chain@[k],
                        chain_locks(cycle@.take(i as int), events)[k],
                        events[chain_locks(cycle@.take(i as int), events)[k]],
                    ),
            decreases n - i,
        {
            let lock_id = cycle[i];
            proof {
                assert(cycle@.take(i + 1).drop_last() =~= cycle@.take(i as int));
                assert(cycle@.take(i + 1).last() == lock_id);
                reveal(Seq::filter);
            }
            match lock_events_get(&tracker.lock_events, lock_id) {
                Some(event) => {
                    let backtrace = event.backtrace.clone();
                    proof {
                        assert forall|j: int| 0 <= j < backtrace@.len() implies backtrace@[j] == event.backtrace@[j] by {
                            assert(cloned::<String>(event.backtrace[j], backtrace[j]));
                        }
                        assert(backtrace@ =~= event.backtrace@);
                    }
                    chain.push(
                        LockChainEntry {
                            lock_id,
                            lock_type: event.lock_type,
                            thread_id: event.thread_id,
                            backtrace,
                        },
                    );
                },
                None => {},
            }
            i = i + 1;
        }
        proof {
            assert(cycle@.take(n as int) =~= cycle@);
        }
        DeadlockReport { cycle_length: cycle.len(), lock_chain: chain }
    }
}

/// The long-cycle keys of a list one longer add the key of its last cycle, if
/// that one is long.
proof fn lemma_long_cycle_keys_push(cycles: Seq<Seq<LockId>>, cycle: Seq<LockId>)
    ensures
        long_cycle_keys(cycles.push(cycle)) == (if cycle.len() >= 2 {
            long_cycle_keys(cycles).insert(cycle_key(cycle))
        } else {
            long_cycle_keys(cycles)
        }),
{
    let post = cycles.push(cycle);
    let a = long_cycle_keys(post);
    let b = long_cycle_keys(cycles);
    assert forall|k: (LockId, LockId)| b.contains(k) implies a.contains(k) by {
        let j = choose|j: int| 0 <= j < cycles.len() && #[trigger] cycles[j].len() >= 2 && k == cycle_key(cycles[j]);
        assert(post[j] == cycles[j]);
    }
    assert forall|k: (LockId, LockId)| a.contains(k) implies (b.contains(k) || (cycle.len() >= 2 && k == cycle_key(cycle))) by {
        let j = choose|j: int| 0 <= j < post.len() && #[trigger] post[j].len() >= 2 && k == cycle_key(post[j]);
        if j < cycles.len() {
            assert(post[j] == cycles[j]);
        }
    }
    if cycle.len() >= 2 {
        assert(post[cycles.len() as int] == cycle);
        assert(a =~= b.insert(cycle_key(cycle)));
    } else {
        assert(a =~= b);
    }
}

/// Along a cycle none of whose nodes lies on a found cycle through two locks,
/// each later node is finished before the first.
proof fn lemma_ranks_descend_off(
    edges: Set<(LockId, LockId)>,
    rank: Map<LockId, int>,
    cycles: Seq<Seq<LockId>>,
    c: Seq<LockId>,
    i: int,
)
    requires
        is_cycle(edges, c),
        1 <= i < c.len(),
        rank.contains_key(c[0]),
        finish_order_ok(edges, rank, cycles),
        forall|j: int| 0 <= j < c.len() ==> !on_long_cycle(cycles, #[trigger] c[j]),
    ensures
        rank.contains_key(c[i]),
        rank[c[i]] < rank[c[0]],
    decreases i,
{
    if i > 1 {
        lemma_ranks_descend_off(edges, rank, cycles, c, i - 1);
    }
    assert(path_step(edges, c, i - 1));
    assert(c[i] != c[i - 1]);
    assert(!on_long_cycle(cycles, c[i - 1]));
    lemma_through_is_long(cycles, c[i - 1], c[i]);
}

/// A found cycle through two distinct locks goes through two locks or more.
proof fn lemma_through_is_long(cycles: Seq<Seq<LockId>>, u: LockId, v: LockId)
    requires
        u != v,
    ensures
        cycle_through(cycles, u, v) ==> on_long_cycle(cycles, u) && cycle_through(cycles, v, u),
{
    if cycle_through(cycles, u, v) {
        let k = choose|k: int| 0 <= k < cycles.len() && #[trigger] cycles[k].contains(u) && cycles[k].contains(v);
        let a = choose|a: int| 0 <= a < cycles[k].len() && cycles[k][a] == u;
        let b = choose|b: int| 0 <= b < cycles[k].len() && cycles[k][b] == v;
        assert(a != b);
        assert(cycles[k].len() >= 2);
    }
}

/// Once every node with an edge is finished, each cycle through two locks or
/// more shares a lock with a found cycle through two locks or more.
proof fn lemma_long_cycle_met(
    edges: Set<(LockId, LockId)>,
    rank: Map<LockId, int>,
    cycles: Seq<Seq<LockId>>,
    c: Seq<LockId>,
)
    requires
        forall|u: LockId, v: LockId| #[trigger] edges.contains((u, v)) ==> rank.contains_key(u),
        finish_order_ok(edges, rank, cycles),
        is_cycle(edges, c),
        c.len() >= 2,
    ensures
        exists|i: int| 0 <= i < c.len() && #[trigger] on_long_cycle(cycles, c[i]),
{
    if forall|j: int| 0 <= j < c.len() ==> !on_long_cycle(cycles, #[trigger] c[j]) {
        assert(path_step(edges, c, 0));
        lemma_ranks_descend_off(edges, rank, cycles, c, c.len() - 1);
        assert(edges.contains((c.last(), c[0])));
        assert(c.last() != c[0]);
        assert(!on_long_cycle(cycles, c[c.len() - 1]));
        lemma_through_is_long(cycles, c.last(), c[0]);
    }
}

/// The cycles that get a report are cycles of the list through two locks or
/// more, with keys reported neither before nor by one another.
proof fn lemma_fresh_cycles(cycles: Seq<Seq<LockId>>, reported: Set<(LockId, LockId)>)
    ensures
        forall|k: int|
            0 <= k < fresh_cycles(cycles, reported).len() ==> exists|j: int|
                0 <= j < cycles.len() && #[trigger] fresh_cycles(cycles, reported)[k] == cycles[j],
        forall|k: int|
            0 <= k < fresh_cycles(cycles, reported).len() ==> (#[trigger] fresh_cycles(cycles, reported)[k]).len()
                >= 2 && !reported.contains(cycle_key(fresh_cycles(cycles, reported)[k]))
                && long_cycle_keys(cycles).contains(cycle_key(fresh_cycles(cycles, reported)[k])),
        forall|k1: int, k2: int|
            0 <= k1 < k2 < fresh_cycles(cycles, reported).len() ==> cycle_key(
                #[trigger] fresh_cycles(cycles, reported)[k1],
            ) != cycle_key(#[trigger] fresh_cycles(cycles, reported)[k2]),
    decreases cycles.len(),
{
    if cycles.len() > 0 {
        let earlier = cycles.drop_last();
        let cycle = cycles.last();
        lemma_fresh_cycles(earlier, reported);
        lemma_long_cycle_keys_push(earlier, cycle);
        assert(cycles =~= earlier.push(cycle));
        let prev = fresh_cycles(earlier, reported);
        let fresh = fresh_cycles(cycles, reported);
        assert forall|k: int| 0 <= k < prev.len() implies exists|j: int|
            0 <= j < cycles.len() && #[trigger] prev[k] == cycles[j] by {
            let j = choose|j: int| 0 <= j < earlier.len() && #[trigger] prev[k] == earlier[j];
            assert(cycles[j] == earlier[j]);
        }
        if cycle.len() >= 2 && !reported.union(long_cycle_keys(earlier)).contains(cycle_key(cycle)) {
            assert(fresh == prev.push(cycle));
            assert(fresh[prev.len() as int] == cycles[cycles.len() - 1]);
            assert forall|k: int| 0 <= k < fresh.len() implies exists|j: int|
                0 <= j < cycles.len() && #[trigger] fresh[k] == cycles[j] by {
                if k < prev.len() {
                    assert(fresh[k] == prev[k]);
                } else {
                    assert(fresh[k] == cycles[cycles.len() - 1]);
                }
            }
            assert forall|k1: int, k2: int|
                0 <= k1 < k2 < fresh.len() implies cycle_key(#[trigger] fresh[k1]) != cycle_key(
                #[trigger] fresh[k2],
            ) by {
                assert(fresh[k1] == prev[k1]);
                if k2 < prev.len() {
                    assert(fresh[k2] == prev[k2]);
                }
            }
        } else {
            assert(fresh == prev);
        }
    }
}

/// The first smallest lock of a non-empty sequence is no larger than any of
/// its locks.
proof fn lemma_first_min(cycle: Seq<LockId>)
    requires
        cycle.len() >= 1,
    ensures
        0 <= first_min_index(cycle) < cycle.len(),
        forall|j: int| 0 <= j < cycle.len() ==> cycle[first_min_index(cycle)] <= #[trigger] cycle[j],
    decreases cycle.len(),
{
    if cycle.len() > 1 {
        let init = cycle.drop_last();
        lemma_first_min(init);
        assert forall|j: int| 0 <= j < cycle.len() implies cycle[first_min_index(cycle)] <= #[trigger] cycle[j] by {
            if j < cycle.len() - 1 {
                assert(init[j] == cycle[j]);
            }
            assert(init[first_min_index(init)] == cycle[first_min_index(init)]);
        }
    }
}

/// In a sequence without repeats, a position whose lock is no larger than any
/// other is the position of the smallest lock.
proof fn lemma_min_unique(cycle: Seq<LockId>, i: int)
    requires
        cycle.no_duplicates(),
        0 <= i < cycle.len(),
        forall|j: int| 0 <= j < cycle.len() ==> cycle[i] <= #[trigger] cycle[j],
    ensures
        i == first_min_index(cycle),
{
    lemma_first_min(cycle);
    let m = first_min_index(cycle);
    assert(cycle[i] <= cycle[m]);
    assert(cycle[m] <= cycle[i]);
}

/// Every rotation of a cycle without repeated locks has the cycle's key.
pub proof fn law_rotation_same_key(cycle: Seq<LockId>, r: int)
    requires
        cycle.no_duplicates(),
        0 <= r < cycle.len(),
    ensures
        cycle_key(rotation(cycle, r)) == cycle_key(cycle),
{
    let n = cycle.len();
    let d = rotation(cycle, r);
    assert(d.len() == n);
    assert forall|i: int| 0 <= i < n - r implies #[trigger] d[i] == cycle[r + i] by {}
    assert forall|i: int| n - r <= i < n implies #[trigger] d[i] == cycle[i - (n - r)] by {}
    lemma_first_min(d);
    let md = first_min_index(d);
    let idx = if md < n - r { r + md } else { md - (n - r) };
    assert(cycle[idx] == d[md]);
    assert forall|j: int| 0 <= j < n implies cycle[idx] <= #[trigger] cycle[j] by {
        if j >= r {
            assert(d[j - r] == cycle[j]);
        } else {
            assert(d[j + (n - r)] == cycle[j]);
        }
    }
    lemma_min_unique(cycle, idx);
    if md + 1 < n {
        if md + 1 < n - r {
            assert(d[md + 1] == cycle[idx + 1]);
        } else if md + 1 == n - r {
            assert(d[md + 1] == cycle[0]);
        } else {
            assert(d[md + 1] == cycle[idx + 1]);
        }
    } else {
        assert(d[0] == cycle[r]);
    }
}

/// The cycles that get a report are no rotations of one another, nor of a
/// cycle reported before.
proof fn lemma_fresh_no_rotations(
    edges: Set<(LockId, LockId)>,
    cycles: Seq<Seq<LockId>>,
    reported: Set<(LockId, LockId)>,
)
    requires
        all_cycles(edges, cycles),
    ensures
        no_repeated_cycle(fresh_cycles(cycles, reported)),
        none_reported_before(fresh_cycles(cycles, reported), reported),
{
    let fresh = fresh_cycles(cycles, reported);
    lemma_fresh_cycles(cycles, reported);
    assert forall|i: int, j: int| 0 <= i < j < fresh.len() implies !#[trigger] is_rotation(fresh[i], fresh[j]) by {
        if is_rotation(fresh[i], fresh[j]) {
            let r = choose|r: int| 0 <= r < fresh[i].len() && fresh[j] == #[trigger] rotation(fresh[i], r);
            let ji = choose|ji: int| 0 <= ji < cycles.len() && #[trigger] fresh[i] == cycles[ji];
            assert(is_cycle(edges, cycles[ji]));
            law_rotation_same_key(fresh[i], r);
            assert(cycle_key(fresh[i]) != cycle_key(fresh[j]));
        }
    }
    assert forall|k: int, c: Seq<LockId>|
        0 <= k < fresh.len() && c.no_duplicates() && reported.contains(cycle_key(c)) implies !#[trigger] is_rotation(
        c,
        fresh[k],
    ) by {
        if is_rotation(c, fresh[k]) {
            let r = choose|r: int| 0 <= r < c.len() && fresh[k] == #[trigger] rotation(c, r);
            law_rotation_same_key(c, r);
            assert(!reported.contains(cycle_key(fresh[k])));
        }
    }
}

/// The key of a cycle through two locks or more without repeated locks is its
/// smallest lock and the lock that follows that one round the cycle: the
/// first is a lock of the cycle no larger than any other, and the second
/// comes right after it (after the last lock comes the first).
pub proof fn law_cycle_key_smallest_and_next(cycle: Seq<LockId>)
    requires
        cycle.no_duplicates(),
        cycle.len() >= 2,
    ensures
        forall|j: int| 0 <= j < cycle.len() ==> cycle_key(cycle).0 <= #[trigger] cycle[j],
        exists|i: int|
            0 <= i < cycle.len() && #[trigger] cycle[i] == cycle_key(cycle).0 && (i + 1 < cycle.len() ==> cycle[i
                + 1] == cycle_key(cycle).1) && (i + 1 == cycle.len() ==> cycle[0] == cycle_key(cycle).1),
        cycle_key(cycle).0 != cycle_key(cycle).1,
{
    lemma_first_min(cycle);
    let m = first_min_index(cycle);
    assert(cycle[m] == cycle_key(cycle).0);
    if m + 1 < cycle.len() {
        assert(cycle[m + 1] == cycle_key(cycle).1);
    } else {
        assert(cycle[0] == cycle_key(cycle).1);
    }
}

/// Cycles that share no lock have different keys, so a report of one never
/// keeps the other from being reported.
pub proof fn law_disjoint_cycles_distinct_keys(first: Seq<LockId>, second: Seq<LockId>)
    requires
        first.no_duplicates(),
        first.len() >= 2,
        second.no_duplicates(),
        second.len() >= 2,
        forall|i: int, j: int| 0 <= i < first.len() && 0 <= j < second.len() ==> first[i] != second[j],
    ensures
        cycle_key(first) != cycle_key(second),
{
    law_cycle_key_smallest_and_next(first);
    law_cycle_key_smallest_and_next(second);
    let i = choose|i: int|
        0 <= i < first.len() && #[trigger] first[i] == cycle_key(first).0 && (i + 1 < first.len() ==> first[i
            + 1] == cycle_key(first).1) && (i + 1 == first.len() ==> first[0] == cycle_key(first).1);
    let j = choose|j: int|
        0 <= j < second.len() && #[trigger] second[j] == cycle_key(second).0 && (j + 1 < second.len()
            ==> second[j + 1] == cycle_key(second).1) && (j + 1 == second.len() ==> second[0] == cycle_key(
            second,
        ).1);
    assert(first[i] != second[j]);
}

/// Two locks that two threads take in opposite orders form a cycle of the
/// lock-order graph.
pub proof fn law_inversion_forms_cycle(edges: Set<(LockId, LockId)>, a: LockId, b: LockId)
    requires
        a != b,
        edges.contains((a, b)),
        edges.contains((b, a)),
    ensures
        has_long_cycle(edges),
{
    let c = seq![a, b];
    assert(path_step(edges, c, 0));
    assert(is_cycle(edges, c));
}

/// A deadlock is found: when the lock-order graph has a cycle through two
/// locks or more, a search marks the key of such a cycle as reported.
pub proof fn law_lock_cycle_reported(
    pre: DeadlockDetector,
    post: DeadlockDetector,
    edges: Set<(LockId, LockId)>,
    events: Map<LockId, LockEvent>,
    reports: Seq<DeadlockReport>,
)
    requires
        deadlock_checked(pre, post, edges, events, reports),
        has_long_cycle(edges),
    ensures
        exists|c: Seq<LockId>| #[trigger] is_cycle(edges, c) && c.len() >= 2 && post.reported_keys().contains(cycle_key(c)),
{
    let cycles = choose|cycles: Seq<Seq<LockId>>|
        {
            &&& #[trigger] cycles_found(edges, cycles)
            &&& post.reported_keys() == pre.reported_keys().union(long_cycle_keys(cycles))
            &&& describes_cycles(reports, fresh_cycles(cycles, pre.reported_keys()), events)
        };
    let k = choose|k: int| 0 <= k < cycles.len() && #[trigger] cycles[k].len() >= 2;
    assert(is_cycle(edges, cycles[k]));
    assert(long_cycle_keys(cycles).contains(cycle_key(cycles[k])));
}

/// Every deadlock report describes a cycle of the lock-order graph through two
/// locks or more whose key was not reported before; the reports of one search
/// have distinct keys.
pub proof fn law_reports_are_new_cycles(
    pre: DeadlockDetector,
    post: DeadlockDetector,
    edges: Set<(LockId, LockId)>,
    events: Map<LockId, LockEvent>,
    reports: Seq<DeadlockReport>,
)
    requires
        deadlock_checked(pre, post, edges, events, reports),
    ensures
        exists|cs: Seq<Seq<LockId>>|
            {
                &&& #[trigger] cs.len() == reports.len()
                &&& forall|k: int|
                    0 <= k < cs.len() ==> {
                        &&& is_cycle(edges, #[trigger] cs[k])
                        &&& cs[k].len() >= 2
                        &&& !pre.reported_keys().contains(cycle_key(cs[k]))
                        &&& post.reported_keys().contains(cycle_key(cs[k]))
                        &&& describes_cycle(reports[k], cs[k], events)
                    }
                &&& forall|k1: int, k2: int|
                    0 <= k1 < k2 < cs.len() ==> cycle_key(#[trigger] cs[k1]) != cycle_key(#[trigger] cs[k2])
            },
{
    let cycles = choose|cycles: Seq<Seq<LockId>>|
        {
            &&& #[trigger] cycles_found(edges, cycles)
            &&& post.reported_keys() == pre.reported_keys().union(long_cycle_keys(cycles))
            &&& describes_cycles(reports, fresh_cycles(cycles, pre.reported_keys()), events)
        };
    let fresh = fresh_cycles(cycles, pre.reported_keys());
    lemma_fresh_cycles(cycles, pre.reported_keys());
    assert forall|k: int| 0 <= k < fresh.len() implies is_cycle(edges, #[trigger] fresh[k]) by {
        let j = choose|j: int| 0 <= j < cycles.len() && #[trigger] fresh[k] == cycles[j];
        assert(is_cycle(edges, cycles[j]));
    }
    assert(fresh.len() == reports.len());
}

/// Every deadlock is met: after a search, each cycle of the lock-order graph
/// through two locks or more shares a lock with a cycle of the graph through
/// two locks or more whose key is marked as reported.
pub proof fn law_every_deadlock_met(
    pre: DeadlockDetector,
    post: DeadlockDetector,
    edges: Set<(LockId, LockId)>,
    events: Map<LockId, LockEvent>,
    reports: Seq<DeadlockReport>,
    c: Seq<LockId>,
)
    requires
        deadlock_checked(pre, post, edges, events, reports),
        is_cycle(edges, c),
        c.len() >= 2,
    ensures
        exists|d: Seq<LockId>, i: int|
            #![trigger d.contains(c[i])]
            is_cycle(edges, d) && d.len() >= 2 && 0 <= i < c.len() && d.contains(c[i])
                && post.reported_keys().contains(cycle_key(d)),
{
    let cycles = choose|cycles: Seq<Seq<LockId>>|
        {
            &&& #[trigger] cycles_found(edges, cycles)
            &&& post.reported_keys() == pre.reported_keys().union(long_cycle_keys(cycles))
            &&& describes_cycles(reports, fresh_cycles(cycles, pre.reported_keys()), events)
            &&& no_repeated_cycle(fresh_cycles(cycles, pre.reported_keys()))
            &&& none_reported_before(fresh_cycles(cycles, pre.reported_keys()), pre.reported_keys())
        };
    lemma_long_cycle_marked(edges, cycles, post.reported_keys(), c);
}

/// A cycle through two locks or more shares a lock with a found one whose
/// key is among the marked keys.
proof fn lemma_long_cycle_marked(
    edges: Set<(LockId, LockId)>,
    cycles: Seq<Seq<LockId>>,
    marked: Set<(LockId, LockId)>,
    c: Seq<LockId>,
)
    requires
        all_cycles(edges, cycles),
        every_long_cycle_met(edges, cycles),
        long_cycle_keys(cycles).subset_of(marked),
        is_cycle(edges, c),
        c.len() >= 2,
    ensures
        exists|d: Seq<LockId>, i: int|
            #![trigger d.contains(c[i])]
            is_cycle(edges, d) && d.len() >= 2 && 0 <= i < c.len() && d.contains(c[i])
                && marked.contains(cycle_key(d)),
{
    reveal(every_long_cycle_met);
    let i = choose|i: int| 0 <= i < c.len() && #[trigger] on_long_cycle(cycles, c[i]);
    let k = choose|k: int| 0 <= k < cycles.len() && cycles[k].len() >= 2 && #[trigger] cycles[k].contains(c[i]);
    let d = cycles[k];
    assert(is_cycle(edges, cycles[k]));
    assert(long_cycle_keys(cycles).contains(cycle_key(d)));
    assert(d.contains(c[i]));
}

/// Every lock-order inversion is met: after a search, for every two distinct
/// locks with an edge each way between them, a cycle of the graph through
/// both has its key marked as reported.
pub proof fn law_every_inversion_met(
    pre: DeadlockDetector,
    post: DeadlockDetector,
    edges: Set<(LockId, LockId)>,
    events: Map<LockId, LockEvent>,
    reports: Seq<DeadlockReport>,
    a: LockId,
    b: LockId,
)
    requires
        deadlock_checked(pre, post, edges, events, reports),
        a != b,
        edges.contains((a, b)),
        edges.contains((b, a)),
    ensures
        exists|d: Seq<LockId>|
            #![trigger is_cycle(edges, d)]
            is_cycle(edges, d) && d.contains(a) && d.contains(b) && post.reported_keys().contains(cycle_key(d)),
{
    let cycles = choose|cycles: Seq<Seq<LockId>>|
        {
            &&& #[trigger] cycles_found(edges, cycles)
            &&& post.reported_keys() == pre.reported_keys().union(long_cycle_keys(cycles))
            &&& describes_cycles(reports, fresh_cycles(cycles, pre.reported_keys()), events)
            &&& no_repeated_cycle(fresh_cycles(cycles, pre.reported_keys()))
            &&& none_reported_before(fresh_cycles(cycles, pre.reported_keys()), pre.reported_keys())
        };
    lemma_inversion_marked(edges, cycles, post.reported_keys(), a, b);
}

/// A two-way pair of edges is gone through by a found cycle whose key is
/// among the marked keys.
proof fn lemma_inversion_marked(
    edges: Set<(LockId, LockId)>,
    cycles: Seq<Seq<LockId>>,
    marked: Set<(LockId, LockId)>,
    a: LockId,
    b: LockId,
)
    requires
        all_cycles(edges, cycles),
        inversions_met(edges, cycles),
        long_cycle_keys(cycles).subset_of(marked),
        a != b,
        edges.contains((a, b)),
        edges.contains((b, a)),
    ensures
        exists|d: Seq<LockId>|
            #![trigger is_cycle(edges, d)]
            is_cycle(edges, d) && d.contains(a) && d.contains(b) && marked.contains(cycle_key(d)),
{
    reveal(inversions_met);
    assert(cycle_through(cycles, a, b));
    let k = choose|k: int| 0 <= k < cycles.len() && #[trigger] cycles[k].contains(a) && cycles[k].contains(b);
    let d = cycles[k];
    assert(is_cycle(edges, cycles[k]));
    lemma_through_is_long(cycles, a, b);
    let i = choose|i: int| 0 <= i < d.len() && d[i] == a;
    let j = choose|j: int| 0 <= j < d.len() && d[j] == b;
    assert(i != j);
    assert(d.len() >= 2);
    assert(long_cycle_keys(cycles).contains(cycle_key(d)));
}

/// A search of a lock-order graph without cycles reports nothing and marks
/// nothing.
pub proof fn law_acyclic_no_reports(
    pre: DeadlockDetector,
    post: DeadlockDetector,
    edges: Set<(LockId, LockId)>,
    events: Map<LockId, LockEvent>,
    reports: Seq<DeadlockReport>,
)
    requires
        deadlock_checked(pre, post, edges, events, reports),
        !has_cycle(edges),
    ensures
        reports.len() == 0,
        post.reported_keys() == pre.reported_keys(),
{
    let cycles = choose|cycles: Seq<Seq<LockId>>|
        {
            &&& #[trigger] cycles_found(edges, cycles)
            &&& post.reported_keys() == pre.reported_keys().union(long_cycle_keys(cycles))
            &&& describes_cycles(reports, fresh_cycles(cycles, pre.reported_keys()), events)
        };
    assert(cycles.len() == 0);
    assert(long_cycle_keys(cycles) =~= Set::<(LockId, LockId)>::empty());
    assert(pre.reported_keys().union(long_cycle_keys(cycles)) =~= pre.reported_keys());
}

/// A lock-order inversion is reported: when thread `first` waits for `b`
/// while holding `a` and then thread `second` waits for `a` while holding
/// `b`, the next search marks the key of a cycle through two locks or more of
/// the resulting lock-order graph as reported.
pub proof fn law_inversion_reported(
    s0: GlobalTracker,
    s1: GlobalTracker,
    s2: GlobalTracker,
    a: LockId,
    b: LockId,
    first_type: LockType,
    second_type: LockType,
    first: ThreadId,
    second: ThreadId,
    ka: int,
    kb: int,
    d0: DeadlockDetector,
    d1: DeadlockDetector,
    reports: Seq<DeadlockReport>,
)
    requires
        a != b,
        wait_recorded(s0, s1, b, first_type, first),
        0 <= ka < s0.held_by(first).len(),
        s0.held_by(first)[ka].0 == a,
        wait_recorded(s1, s2, a, second_type, second),
        0 <= kb < s1.held_by(second).len(),
        s1.held_by(second)[kb].0 == b,
        deadlock_checked(d0, d1, s2.edges().dom(), s2.events(), reports),
    ensures
        exists|c: Seq<LockId>|
            #[trigger] is_cycle(s2.edges().dom(), c) && c.len() >= 2 && d1.reported_keys().contains(cycle_key(c)),
{
    law_wait_adds_edge(s0, s1, b, first_type, first, ka);
    law_wait_keeps_edges(s1, s2, a, second_type, second);
    law_wait_adds_edge(s1, s2, a, second_type, second, kb);
    assert(s1.edges().dom().contains((a, b)));
    law_inversion_forms_cycle(s2.edges().dom(), a, b);
    law_lock_cycle_reported(d0, d1, s2.edges().dom(), s2.events(), reports);
}

} // verus!
