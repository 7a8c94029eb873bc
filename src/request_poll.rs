//! A pool of outstanding requests, each with its cancellable flag and its
//! completion callback, kept in three vectors that share one indexing.
//!
//! The messaging layer reports completions as a list of indices into the
//! request vector.  A completion sweep hands the matching callbacks back in
//! the reported order and then compacts the pool by swap-removing the
//! completed slots in strictly descending index order, which keeps every
//! index still to be removed valid.

use vstd::prelude::*;
use vstd::set_lib::{lemma_int_range, lemma_subset_equality, set_int_range};
use crate::convert::request_count;

verus! {

/// The sequence after `Vec::swap_remove(i)`: the last element takes the
/// place of the `i`-th, and the sequence shrinks by one.
pub open spec fn swap_removed<A>(s: Seq<A>, i: int) -> Seq<A> {
    s.update(i, s.last()).drop_last()
}

/// The sequence after swap-removing the positions of `order`, first to last.
pub open spec fn compact<A>(s: Seq<A>, order: Seq<int>) -> Seq<A>
    decreases order.len(),
{
    if order.len() == 0 {
        s
    } else {
        swap_removed(compact(s, order.drop_last()), order.last())
    }
}

/// Each element of `order` is larger than every later one.
pub open spec fn strictly_descending(order: Seq<int>) -> bool {
    forall|a: int, b: int| 0 <= a < b < order.len() ==> order[a] > order[b]
}

/// Every element of `order` is a position of a sequence of length `n`.
pub open spec fn within(order: Seq<int>, n: int) -> bool {
    forall|k: int| 0 <= k < order.len() ==> 0 <= #[trigger] order[k] < n
}

/// The positions `0, 1, ..., n - 1`.
pub open spec fn positions(n: int) -> Seq<int> {
    Seq::new(n as nat, |p: int| p)
}

/// The completion indices reported by the messaging layer, as integers.
pub open spec fn indices(completed: Seq<i32>) -> Seq<int> {
    completed.map_values(|c: i32| c as int)
}

/// The positions in `lo .. hi` that `report` names, from the highest down.
pub open spec fn descending_positions(report: Seq<int>, lo: int, hi: int) -> Seq<int>
    decreases hi - lo,
{
    if hi <= lo {
        Seq::empty()
    } else if report.contains(lo) {
        descending_positions(report, lo + 1, hi).push(lo)
    } else {
        descending_positions(report, lo + 1, hi)
    }
}

proof fn lemma_descending_positions(report: Seq<int>, lo: int, hi: int)
    requires
        0 <= lo <= hi,
    ensures
        strictly_descending(descending_positions(report, lo, hi)),
        within(descending_positions(report, lo, hi), hi),
        forall|k: int|
            0 <= k < descending_positions(report, lo, hi).len() ==> lo <= #[trigger] descending_positions(
                report,
                lo,
                hi,
            )[k],
        forall|p: int|
            #![trigger descending_positions(report, lo, hi).contains(p)]
            descending_positions(report, lo, hi).contains(p) <==> lo <= p < hi && report.contains(p),
    decreases hi - lo,
{
    if lo < hi {
        lemma_descending_positions(report, lo + 1, hi);
        let rest = descending_positions(report, lo + 1, hi);
        let d = descending_positions(report, lo, hi);
        assert forall|p: int| d.contains(p) <==> lo <= p < hi && report.contains(p) by {
            if d.contains(p) {
                let j = choose|j: int| 0 <= j < d.len() && d[j] == p;
                if j < rest.len() {
                    assert(rest[j] == p);
                    assert(rest.contains(p));
                }
            }
            if lo <= p < hi && report.contains(p) {
                if p == lo {
                    assert(d[d.len() - 1] == p);
                } else {
                    assert(rest.contains(p));
                    let j = choose|j: int| 0 <= j < rest.len() && rest[j] == p;
                    assert(d[j] == p);
                }
            }
        }
    }
}

/// A report of completions names each slot of a pool of `n` requests at
/// most once.
pub open spec fn valid_report(completed: Seq<i32>, n: int) -> bool {
    &&& within(indices(completed), n)
    &&& indices(completed).no_duplicates()
}

proof fn lemma_compact_facts<A>(s: Seq<A>, order: Seq<int>)
    requires
        strictly_descending(order),
        within(order, s.len() as int),
    ensures
        compact(s, order).len() == s.len() - order.len(),
        forall|p: int|
            0 <= p < s.len() && (order.len() == 0 || p < order.last()) ==> #[trigger] compact(
                s,
                order,
            )[p] == s[p],
    decreases order.len(),
{
    if order.len() > 0 {
        let rest = order.drop_last();
        assert(strictly_descending(rest));
        assert(within(rest, s.len() as int));
        lemma_compact_facts(s, rest);
        let x = order.last();
        if rest.len() > 0 {
            assert(rest.last() == order[order.len() - 2]);
            assert(x < rest.last());
        }
        // x is below each of the `order.len() - 1` positions removed before
        assert(x <= s.len() - order.len()) by {
            lemma_descending_bound(order, s.len() as int);
        }
    }
}

proof fn lemma_descending_bound(order: Seq<int>, n: int)
    requires
        order.len() > 0,
        strictly_descending(order),
        within(order, n),
    ensures
        order.last() <= n - order.len(),
    decreases order.len(),
{
    if order.len() > 1 {
        let rest = order.drop_last();
        assert(strictly_descending(rest));
        assert(within(rest, n));
        lemma_descending_bound(rest, n);
        assert(rest.last() == order[order.len() - 2]);
    }
}

proof fn lemma_compact_map<A>(s: Seq<A>, order: Seq<int>)
    requires
        strictly_descending(order),
        within(order, s.len() as int),
    ensures
        compact(s, order) == compact(positions(s.len() as int), order).map_values(|p: int| s[p]),
    decreases order.len(),
{
    let ps = positions(s.len() as int);
    if order.len() == 0 {
        assert(compact(s, order) =~= compact(ps, order).map_values(|p: int| s[p]));
    } else {
        let rest = order.drop_last();
        assert(strictly_descending(rest));
        assert(within(rest, s.len() as int));
        lemma_compact_map(s, rest);
        lemma_compact_facts(s, rest);
        lemma_compact_facts(ps, rest);
        lemma_descending_bound(order, s.len() as int);
        assert(compact(s, order) =~= compact(ps, order).map_values(|p: int| s[p]));
    }
}

proof fn lemma_compact_positions(n: int, order: Seq<int>)
    requires
        0 <= n,
        strictly_descending(order),
        within(order, n),
    ensures
        compact(positions(n), order).no_duplicates(),
        forall|p: int|
            #![trigger compact(positions(n), order).contains(p)]
            compact(positions(n), order).contains(p) <==> 0 <= p < n && !order.contains(p),
    decreases order.len(),
{
    let ps = positions(n);
    if order.len() == 0 {
        assert forall|p: int| ps.contains(p) <==> 0 <= p < n && !order.contains(p) by {
            if 0 <= p < n {
                assert(ps[p] == p);
            }
        }
    } else {
        let rest = order.drop_last();
        let x = order.last();
        assert(strictly_descending(rest));
        assert(within(rest, n));
        lemma_compact_positions(n, rest);
        lemma_compact_facts(ps, rest);
        lemma_descending_bound(order, n);
        let c = compact(ps, rest);
        let d = compact(ps, order);
        assert(d == swap_removed(c, x));
        assert(c[x] == x);
        assert(d.no_duplicates()) by {
            assert forall|a: int, b: int| 0 <= a < b < d.len() implies d[a] != d[b] by {
                if a == x {
                    assert(d[a] == c[c.len() - 1]);
                    assert(d[b] == c[b]);
                } else if b == x {
                    assert(d[b] == c[c.len() - 1]);
                    assert(d[a] == c[a]);
                } else {
                    assert(d[a] == c[a]);
                    assert(d[b] == c[b]);
                }
            }
        }
        assert forall|p: int| d.contains(p) <==> 0 <= p < n && !order.contains(p) by {
            if d.contains(p) {
                let j = choose|j: int| 0 <= j < d.len() && d[j] == p;
                let src = if j == x { c.len() - 1 } else { j };
                assert(c[src] == p);
                assert(c.contains(p));
                assert(p != x) by {
                    assert(c[x] == x);
                    assert(src != x);
                }
                assert(!order.contains(p)) by {
                    if order.contains(p) {
                        let k = choose|k: int| 0 <= k < order.len() && order[k] == p;
                        if k < order.len() - 1 {
                            assert(rest[k] == p);
                        }
                    }
                }
            }
            if 0 <= p < n && !order.contains(p) {
                assert(!rest.contains(p)) by {
                    if rest.contains(p) {
                        let k = choose|k: int| 0 <= k < rest.len() && rest[k] == p;
                        assert(order[k] == p);
                    }
                }
                assert(c.contains(p));
                let j = choose|j: int| 0 <= j < c.len() && c[j] == p;
                assert(p != x) by {
                    assert(order[order.len() - 1] == x);
                }
                assert(j != x);
                if j == c.len() - 1 {
                    assert(d[x] == p);
                } else {
                    assert(d[j] == p);
                }
            }
        }
    }
}

/// Compacting a sequence by swap-removals in strictly descending position
/// order keeps exactly the elements whose positions were not removed, each
/// once: the result is the sequence read at a list of distinct positions,
/// which are precisely the positions that `order` does not name.
pub proof fn lemma_compaction_keeps_the_rest<A>(s: Seq<A>, order: Seq<int>)
    requires
        strictly_descending(order),
        within(order, s.len() as int),
    ensures
        compact(s, order).len() == s.len() - order.len(),
        compact(s, order) == compact(positions(s.len() as int), order).map_values(|p: int| s[p]),
        compact(positions(s.len() as int), order).no_duplicates(),
        forall|p: int|
            #![trigger compact(positions(s.len() as int), order).contains(p)]
            compact(positions(s.len() as int), order).contains(p) <==> 0 <= p < s.len()
                && !order.contains(p),
{
    lemma_compact_facts(s, order);
    lemma_compact_map(s, order);
    lemma_compact_positions(s.len() as int, order);
}

/// Three parallel sequences read as one sequence of slots, as long as the
/// first.
pub open spec fn slots<R, B, C>(requests: Seq<R>, flags: Seq<B>, callbacks: Seq<C>) -> Seq<(R, B, C)> {
    Seq::new(requests.len(), |i: int| (requests[i], flags[i], callbacks[i]))
}

/// A report that names as many distinct slots as the pool holds names every
/// slot: the sweep delivers every outstanding callback exactly once and
/// leaves the pool empty.
pub proof fn lemma_full_report_names_every_slot(completed: Seq<i32>, n: int)
    requires
        0 <= n,
        valid_report(completed, n),
        completed.len() == n,
    ensures
        forall|p: int| 0 <= p < n ==> #[trigger] indices(completed).contains(p),
{
    let done = indices(completed);
    let all = set_int_range(0, n);
    lemma_int_range(0, n);
    done.unique_seq_to_set();
    assert(done.to_set().subset_of(all)) by {
        assert forall|p: int| done.to_set().contains(p) implies all.contains(p) by {
            let k = choose|k: int| 0 <= k < done.len() && done[k] == p;
            assert(0 <= done[k] < n);
        }
    }
    lemma_subset_equality(done.to_set(), all);
    assert forall|p: int| 0 <= p < n implies #[trigger] done.contains(p) by {
        assert(all.contains(p));
        assert(done.to_set().contains(p));
    }
}

/// The pool after a sweep that reports `completed`; a report that does not
/// match the pool is refused and leaves it unchanged.
pub open spec fn swept<A>(pool: Seq<A>, completed: Seq<i32>) -> Seq<A> {
    if valid_report(completed, pool.len() as int) {
        compact(pool, descending_positions(indices(completed), 0, pool.len() as int))
    } else {
        pool
    }
}

/// The callbacks that a sweep reporting `completed` hands out, in the
/// reported order; none for a refused report.
pub open spec fn handed_out<A>(pool: Seq<A>, completed: Seq<i32>) -> Seq<A> {
    if valid_report(completed, pool.len() as int) {
        indices(completed).map_values(|i: int| pool[i])
    } else {
        Seq::empty()
    }
}

/// One operation on a pool: posting a request under a fresh name, or a
/// completion sweep with the report of the messaging layer.
pub enum PoolStep {
    /// A send or receive posted under this name.
    Post(int),
    /// A sweep with the completion indices that the messaging layer reported.
    Sweep(Seq<i32>),
}

/// Replays `trace` on an empty pool: the names posted, the names still in
/// the pool, and the names whose callbacks were handed out, in order.
pub open spec fn replay(trace: Seq<PoolStep>) -> (Seq<int>, Seq<int>, Seq<int>)
    decreases trace.len(),
{
    if trace.len() == 0 {
        (Seq::empty(), Seq::empty(), Seq::empty())
    } else {
        let before = replay(trace.drop_last());
        match trace.last() {
            PoolStep::Post(id) => (before.0.push(id), before.1.push(id), before.2),
            PoolStep::Sweep(report) => (
                before.0,
                swept(before.1, report),
                before.2 + handed_out(before.1, report),
            ),
        }
    }
}

/// Every posted name is either still in the pool or was handed out, never
/// both, neither holds a name twice, and the counts add up.
pub open spec fn accounted(posted: Seq<int>, pool: Seq<int>, delivered: Seq<int>) -> bool {
    &&& pool.no_duplicates()
    &&& delivered.no_duplicates()
    &&& posted.len() == pool.len() + delivered.len()
    &&& forall|x: int| #[trigger] posted.contains(x) <==> pool.contains(x) || delivered.contains(x)
    &&& forall|x: int| #[trigger] pool.contains(x) ==> !delivered.contains(x)
}

proof fn lemma_sweep_accounted(posted: Seq<int>, pool: Seq<int>, delivered: Seq<int>, report: Seq<i32>)
    requires
        accounted(posted, pool, delivered),
    ensures
        accounted(posted, swept(pool, report), delivered + handed_out(pool, report)),
{
    let n = pool.len() as int;
    if valid_report(report, n) {
        let done = indices(report);
        let order = descending_positions(done, 0, n);
        lemma_descending_positions(done, 0, n);
        lemma_compaction_keeps_the_rest(pool, order);
        let kp = compact(positions(n), order);
        let kept = compact(pool, order);
        let out = done.map_values(|i: int| pool[i]);
        let nd = delivered + out;
        assert(kept == swept(pool, report));
        assert(out == handed_out(pool, report));
        // as many slots leave as the report names
        assert(order.no_duplicates());
        assert(order.to_set() =~= done.to_set());
        order.unique_seq_to_set();
        done.unique_seq_to_set();
        assert forall|j: int| 0 <= j < kp.len() implies 0 <= #[trigger] kp[j] < n && !done.contains(kp[j]) by {
            assert(kp.contains(kp[j]));
        }
        assert(kept.no_duplicates()) by {
            assert forall|a: int, b: int| 0 <= a < b < kept.len() implies kept[a] != kept[b] by {
                assert(kept[a] == pool[kp[a]]);
                assert(kept[b] == pool[kp[b]]);
            }
        }
        assert forall|k: int| 0 <= k < out.len() implies 0 <= #[trigger] done[k] < n && out[k] == pool[done[k]] by {}
        assert(out.no_duplicates()) by {
            assert forall|a: int, b: int| 0 <= a < b < out.len() implies out[a] != out[b] by {
                assert(done[a] != done[b]);
            }
        }
        assert forall|x: int| #[trigger] pool.contains(x) <==> kept.contains(x) || out.contains(x) by {
            if pool.contains(x) {
                let p = choose|p: int| 0 <= p < pool.len() && pool[p] == x;
                if done.contains(p) {
                    let k = choose|k: int| 0 <= k < done.len() && done[k] == p;
                    assert(out[k] == x);
                } else {
                    assert(kp.contains(p));
                    let j = choose|j: int| 0 <= j < kp.len() && kp[j] == p;
                    assert(kept[j] == x);
                }
            }
            if kept.contains(x) {
                let j = choose|j: int| 0 <= j < kept.len() && kept[j] == x;
                assert(pool[kp[j]] == x);
            }
            if out.contains(x) {
                let k = choose|k: int| 0 <= k < out.len() && out[k] == x;
                assert(pool[done[k]] == x);
            }
        }
        assert forall|x: int| #[trigger] kept.contains(x) implies !out.contains(x) by {
            if kept.contains(x) && out.contains(x) {
                let j = choose|j: int| 0 <= j < kept.len() && kept[j] == x;
                let k = choose|k: int| 0 <= k < out.len() && out[k] == x;
                assert(pool[kp[j]] == pool[done[k]]);
                assert(kp[j] == done[k]);
            }
        }
        assert forall|x: int| #[trigger] nd.contains(x) <==> delivered.contains(x) || out.contains(x) by {
            if nd.contains(x) {
                let j = choose|j: int| 0 <= j < nd.len() && nd[j] == x;
                if j < delivered.len() {
                    assert(delivered[j] == x);
                } else {
                    assert(out[j - delivered.len()] == x);
                }
            }
            if delivered.contains(x) {
                let j = choose|j: int| 0 <= j < delivered.len() && delivered[j] == x;
                assert(nd[j] == x);
            }
            if out.contains(x) {
                let k = choose|k: int| 0 <= k < out.len() && out[k] == x;
                assert(nd[delivered.len() + k] == x);
            }
        }
        assert(nd.no_duplicates()) by {
            assert forall|a: int, b: int| 0 <= a < b < nd.len() implies nd[a] != nd[b] by {
                if b >= delivered.len() && a < delivered.len() {
                    assert(delivered.contains(nd[a]));
                    assert(out.contains(nd[b]));
                    assert(pool.contains(nd[b]));
                } else if a >= delivered.len() {
                    assert(nd[a] == out[a - delivered.len()]);
                    assert(nd[b] == out[b - delivered.len()]);
                }
            }
        }
        assert forall|x: int| #[trigger] posted.contains(x) <==> kept.contains(x) || nd.contains(x) by {
            if posted.contains(x) {
                if pool.contains(x) {
                    assert(kept.contains(x) || out.contains(x));
                }
            }
            if kept.contains(x) {
                assert(pool.contains(x));
            }
            if nd.contains(x) && out.contains(x) {
                assert(pool.contains(x));
            }
        }
        assert forall|x: int| #[trigger] kept.contains(x) implies !nd.contains(x) by {
            if kept.contains(x) {
                assert(pool.contains(x));
                assert(!out.contains(x));
            }
        }
    } else {
        assert(delivered + handed_out(pool, report) =~= delivered);
    }
}

/// Over any interleaving of posts under distinct names and completion
/// sweeps, every posted request is either still in the pool or has had its
/// callback handed out exactly once, never both; the numbers of names in
/// the pool and handed out add up to the number posted.  So once the pool
/// is empty, each posted callback was handed out once and none twice.
pub proof fn lemma_every_callback_handed_out_once(trace: Seq<PoolStep>)
    requires
        replay(trace).0.no_duplicates(),
    ensures
        accounted(replay(trace).0, replay(trace).1, replay(trace).2),
        replay(trace).1.len() == 0 ==> replay(trace).2.len() == replay(trace).0.len(),
        replay(trace).1.len() == 0 ==> forall|x: int|
            #[trigger] replay(trace).0.contains(x) <==> replay(trace).2.contains(x),
    decreases trace.len(),
{
    if trace.len() > 0 {
        let rest = trace.drop_last();
        let before = replay(rest);
        match trace.last() {
            PoolStep::Post(id) => {
                let now = replay(trace);
                assert(now.0 == before.0.push(id));
                assert(now.1 == before.1.push(id));
                assert(now.2 == before.2);
                assert(before.0.no_duplicates()) by {
                    assert forall|a: int, b: int| 0 <= a < b < before.0.len() implies before.0[a] != before.0[b] by {
                        assert(now.0[a] == before.0[a]);
                        assert(now.0[b] == before.0[b]);
                    }
                }
                lemma_every_callback_handed_out_once(rest);
                assert(!before.0.contains(id)) by {
                    if before.0.contains(id) {
                        let j = choose|j: int| 0 <= j < before.0.len() && before.0[j] == id;
                        assert(now.0[j] == now.0[before.0.len() as int]);
                    }
                }
                assert(!before.2.contains(id)) by {
                    if before.2.contains(id) {
                        assert(before.0.contains(id));
                    }
                }
                assert forall|x: int| #[trigger] now.0.contains(x) <==> now.1.contains(x) || now.2.contains(x) by {
                    if x == id {
                        assert(now.0[before.0.len() as int] == x);
                        assert(now.1[before.1.len() as int] == x);
                    } else {
                        if now.0.contains(x) {
                            let j = choose|j: int| 0 <= j < now.0.len() && now.0[j] == x;
                            assert(before.0[j] == x);
                            assert(before.0.contains(x));
                            if before.1.contains(x) {
                                let k = choose|k: int| 0 <= k < before.1.len() && before.1[k] == x;
                                assert(now.1[k] == x);
                            }
                        }
                        if now.1.contains(x) {
                            let j = choose|j: int| 0 <= j < now.1.len() && now.1[j] == x;
                            assert(before.1[j] == x);
                            assert(before.1.contains(x));
                            assert(before.0.contains(x));
                            let k = choose|k: int| 0 <= k < before.0.len() && before.0[k] == x;
                            assert(now.0[k] == x);
                        }
                        if now.2.contains(x) {
                            assert(before.0.contains(x));
                            let k = choose|k: int| 0 <= k < before.0.len() && before.0[k] == x;
                            assert(now.0[k] == x);
                        }
                    }
                }
                assert forall|x: int| #[trigger] now.1.contains(x) implies !now.2.contains(x) by {
                    if now.1.contains(x) && x != id {
                        let j = choose|j: int| 0 <= j < now.1.len() && now.1[j] == x;
                        assert(before.1[j] == x);
                        assert(before.1.contains(x));
                    }
                }
                assert(now.1.no_duplicates()) by {
                    assert forall|a: int, b: int| 0 <= a < b < now.1.len() implies now.1[a] != now.1[b] by {
                        if b == before.1.len() {
                            assert(before.1.contains(now.1[a]));
                        }
                    }
                }
            },
            PoolStep::Sweep(report) => {
                lemma_every_callback_handed_out_once(rest);
                lemma_sweep_accounted(before.0, before.1, before.2, report);
            },
        }
    }
}

/// The most requests that one native wait-all call is given.
pub const WAIT_CHUNK: usize = 0xffff;

/// `chunks` lists `(offset, count)` pairs that tile the positions
/// `0 .. len` from the top down: full chunks of `WAIT_CHUNK` first, then one
/// shorter chunk that starts at zero (possibly empty).
pub open spec fn tiles_from_top(chunks: Seq<(usize, usize)>, len: int) -> bool {
    &&& chunks.len() > 0
    &&& chunks[0].0 + chunks[0].1 == len
    &&& forall|k: int|
        0 <= k < chunks.len() - 1 ==> (#[trigger] chunks[k]).1 == WAIT_CHUNK && chunks[k + 1].0
            + chunks[k + 1].1 == chunks[k].0
    &&& chunks.last().0 == 0
    &&& chunks.last().1 < WAIT_CHUNK
}

/// Position `p` lies in the chunk `(offset, count)`.
pub open spec fn in_chunk(chunk: (usize, usize), p: int) -> bool {
    chunk.0 <= p < chunk.0 + chunk.1
}

/// Position `p` lies in one of the chunks `0 ..= upto`.
pub open spec fn covered(chunks: Seq<(usize, usize)>, upto: int, p: int) -> bool {
    exists|j: int| 0 <= j <= upto && in_chunk(chunks[j], p)
}

proof fn lemma_chunks_prefix(chunks: Seq<(usize, usize)>, len: int, k: int)
    requires
        tiles_from_top(chunks, len),
        0 <= k < chunks.len(),
    ensures
        forall|p: int| chunks[k].0 <= p < len ==> #[trigger] covered(chunks, k, p),
        forall|j: int| 0 <= j < k ==> chunks[k].0 + chunks[k].1 <= #[trigger] chunks[j].0,
    decreases k,
{
    if k > 0 {
        lemma_chunks_prefix(chunks, len, k - 1);
        assert(chunks[k].0 + chunks[k].1 == chunks[k - 1].0);
        assert forall|p: int| chunks[k].0 <= p < len implies #[trigger] covered(chunks, k, p) by {
            if p >= chunks[k - 1].0 {
                assert(covered(chunks, k - 1, p));
                let j = choose|j: int| 0 <= j <= k - 1 && in_chunk(chunks[j], p);
                assert(0 <= j <= k);
            } else {
                assert(in_chunk(chunks[k], p));
            }
        }
    }
}

/// The wait-all chunks of teardown reach every request exactly once: each
/// position below `len` lies in one of the chunks, and the chunks do not
/// overlap
/// (each one ends where the one before it starts, or lower).
pub proof fn lemma_chunks_cover_all(chunks: Seq<(usize, usize)>, len: int)
    requires
        tiles_from_top(chunks, len),
    ensures
        forall|p: int| 0 <= p < len ==> #[trigger] covered(chunks, chunks.len() - 1, p),
        forall|a: int, b: int|
            0 <= a < b < chunks.len() ==> #[trigger] chunks[b].0 + chunks[b].1 <= #[trigger] chunks[a].0,
{
    let last = chunks.len() - 1;
    lemma_chunks_prefix(chunks, len, last);
    assert forall|a: int, b: int| 0 <= a < b < chunks.len() implies #[trigger] chunks[b].0 + chunks[b].1
        <= #[trigger] chunks[a].0 by {
        lemma_chunks_prefix(chunks, len, b);
    }
}

/// How teardown waits on `len` requests: one wait-all call per chunk, taken
/// from the top of the request vector down.
pub fn wait_all_chunks(len: usize) -> (r: Vec<(usize, usize)>)
    ensures
        tiles_from_top(r@, len as int),
{
    let mut chunks: Vec<(usize, usize)> = Vec::new();
    let mut remaining: usize = len;
    while remaining >= WAIT_CHUNK
        invariant
            remaining <= len,
            chunks@.len() == 0 ==> remaining == len,
            chunks@.len() > 0 ==> chunks@[0].0 + chunks@[0].1 == len && chunks@.last().0
                == remaining,
            forall|k: int| 0 <= k < chunks@.len() ==> (#[trigger] chunks@[k]).1 == WAIT_CHUNK,
            forall|k: int|
                0 <= k < chunks@.len() - 1 ==> chunks@[k + 1].0 + chunks@[k + 1].1 == (
                #[trigger] chunks@[k]).0,
        decreases remaining,
    {
        let offset = remaining - WAIT_CHUNK;
        chunks.push((offset, WAIT_CHUNK));
        remaining = offset;
    }
    chunks.push((0, remaining));
    chunks
}

/// What a completion sweep asks of the messaging layer.
pub enum SweepSize {
    /// The pool is empty: skip the native call.
    Idle,
    /// Test or wait on this many requests.
    Count(i32),
    /// More requests are outstanding than the native signed 32-bit count
    /// can name.
    TooMany,
}

/// What a completion sweep hands back.
pub struct Settled<R, C> {
    /// The callbacks of the completed requests, in the order that the
    /// messaging layer reported them.
    pub callbacks: Vec<C>,
    /// The removed request handles with their former slots, in the order in
    /// which the slots were swap-removed (strictly descending).  A handle that
    /// the messaging layer did not reset to null is persistent and must be
    /// freed.
    pub released: Vec<(usize, R)>,
}

/// The slots named by `released`, in removal order.
pub open spec fn removal_order<R>(released: Seq<(usize, R)>) -> Seq<int> {
    released.map_values(|e: (usize, R)| e.0 as int)
}

/// Outstanding requests with their cancellable flags and completion
/// callbacks.  Every slot holds exactly one request, one flag and one
/// callback; completions remove slots, so there are no empty ones.
pub struct RequestPoll<R, C> {
    requests: Vec<R>,
    cancelables: Vec<bool>,
    callbacks: Vec<Option<C>>,
}

impl<R, C> Default for RequestPoll<R, C> {
    fn default() -> (r: Self)
        ensures
            r.wf(),
            r.spec_len() == 0,
    {
        RequestPoll::new()
    }
}

impl<R, C> RequestPoll<R, C> {
    /// The three vectors have one length and every callback slot is filled.
    pub closed spec fn wf(&self) -> bool {
        &&& self.requests@.len() == self.cancelables@.len()
        &&& self.requests@.len() == self.callbacks@.len()
        &&& forall|i: int| 0 <= i < self.callbacks@.len() ==> #[trigger] self.callbacks@[i] is Some
    }

    /// The request handles, slot by slot.
    pub closed spec fn spec_requests(&self) -> Seq<R> {
        self.requests@
    }

    /// Whether each slot's request may be cancelled on teardown.
    pub closed spec fn spec_cancelables(&self) -> Seq<bool> {
        self.cancelables@
    }

    /// The completion callbacks, slot by slot.
    pub closed spec fn spec_callbacks(&self) -> Seq<C> {
        self.callbacks@.map_values(|c: Option<C>| c->0)
    }

    /// The number of outstanding requests.
    pub open spec fn spec_len(&self) -> nat {
        self.spec_requests().len()
    }

    /// Each slot as one entry: request, cancellable flag and callback.
    pub open spec fn entries(&self) -> Seq<(R, bool, C)> {
        slots(self.spec_requests(), self.spec_cancelables(), self.spec_callbacks())
    }

    /// An empty pool.
    pub fn new() -> (r: Self)
        ensures
            r.wf(),
            r.spec_len() == 0,
            r.spec_cancelables().len() == 0,
            r.spec_callbacks().len() == 0,
    {
        RequestPoll { requests: Vec::new(), cancelables: Vec::new(), callbacks: Vec::new() }
    }

    /// The number of outstanding requests.
    pub fn len(&self) -> (r: usize)
        ensures
            r == self.spec_len(),
    {
        self.requests.len()
    }

    /// The request handles, slot by slot, for a batch completion call.
    pub fn request_handles(&self) -> (r: &Vec<R>)
        ensures
            r@ == self.spec_requests(),
    {
        &self.requests
    }

    /// Makes room for one more request in each of the three vectors.
    pub fn reserve_one(&mut self)
        requires
            old(self).wf(),
        ensures
            final(self).wf(),
            final(self).spec_requests() == old(self).spec_requests(),
            final(self).spec_cancelables() == old(self).spec_cancelables(),
            final(self).spec_callbacks() == old(self).spec_callbacks(),
    {
        self.requests.reserve(1);
        self.cancelables.reserve(1);
        self.callbacks.reserve(1);
    }

    /// Adds a posted request with its callback.  `cancelable` says whether
    /// cancelling the request works (receives) or not (sends).
    pub fn insert(&mut self, request: R, callback: C, cancelable: bool)
        requires
            old(self).wf(),
        ensures
            final(self).wf(),
            final(self).spec_requests() == old(self).spec_requests().push(request),
            final(self).spec_cancelables() == old(self).spec_cancelables().push(cancelable),
            final(self).spec_callbacks() == old(self).spec_callbacks().push(callback),
            final(self).entries() == old(self).entries().push((request, cancelable, callback)),
    {
        self.requests.push(request);
        self.cancelables.push(cancelable);
        self.callbacks.push(Some(callback));
        assert(self.spec_callbacks() =~= old(self).spec_callbacks().push(callback));
        assert(self.entries() =~= old(self).entries().push((request, cancelable, callback)));
    }

    /// Adds a posted matched receive.  Receives are cancellable.
    pub fn insert_recv(&mut self, request: R, callback: C)
        requires
            old(self).wf(),
        ensures
            final(self).wf(),
            final(self).entries() == old(self).entries().push((request, true, callback)),
            final(self).spec_requests() == old(self).spec_requests().push(request),
            final(self).spec_cancelables() == old(self).spec_cancelables().push(true),
            final(self).spec_callbacks() == old(self).spec_callbacks().push(callback),
    {
        self.insert(request, callback, true);
    }

    /// Adds a posted send.  Sends are never cancelled.
    pub fn insert_send(&mut self, request: R, callback: C)
        requires
            old(self).wf(),
        ensures
            final(self).wf(),
            final(self).entries() == old(self).entries().push((request, false, callback)),
            final(self).spec_requests() == old(self).spec_requests().push(request),
            final(self).spec_cancelables() == old(self).spec_cancelables().push(false),
            final(self).spec_callbacks() == old(self).spec_callbacks().push(callback),
    {
        self.insert(request, callback, false);
    }

    /// How a completion sweep is to call the messaging layer: not at all on
    /// an empty pool, otherwise with the request count, which must fit a
    /// signed 32-bit integer.
    pub fn sweep_size(&self) -> (r: SweepSize)
        ensures
            self.spec_len() == 0 ==> r is Idle,
            0 < self.spec_len() <= i32::MAX ==> r == SweepSize::Count(self.spec_len() as i32),
            self.spec_len() > i32::MAX ==> r is TooMany,
    {
        let n = self.requests.len();
        if n == 0 {
            SweepSize::Idle
        } else {
            match request_count(n) {
                Some(c) => SweepSize::Count(c),
                None => SweepSize::TooMany,
            }
        }
    }

    /// A completion sweep.  `updated` is the request vector as the batch
    /// completion call left it, and `completed` the slots it reported.  The
    /// callbacks of the reported slots come back in the reported order, and
    /// those slots are swap-removed in strictly descending order.  A report
    /// that does not match the pool (another length, a slot out of range or
    /// named twice) is refused, and the pool is left as it was.
    pub fn settle(&mut self, updated: Vec<R>, completed: &Vec<i32>) -> (r: Option<Settled<R, C>>)
        requires
            old(self).wf(),
        ensures
            final(self).wf(),
            r is None <==> !(updated@.len() == old(self).spec_len() && valid_report(
                completed@,
                old(self).spec_len() as int,
            )),
            r is None ==> *final(self) == *old(self),
            r is Some ==> final(self).spec_len() == old(self).spec_len() - completed@.len(),
            r matches Some(s) ==> {
                &&& removal_order(s.released@) == descending_positions(
                    indices(completed@),
                    0,
                    old(self).spec_len() as int,
                )
                &&& s.callbacks@ == indices(completed@).map_values(
                    |i: int| old(self).spec_callbacks()[i],
                )
                &&& strictly_descending(removal_order(s.released@))
                &&& forall|p: int|
                    #![trigger removal_order(s.released@).contains(p)]
                    removal_order(s.released@).contains(p) <==> indices(completed@).contains(p)
                &&& forall|k: int|
                    0 <= k < s.released@.len() ==> (#[trigger] s.released@[k]).1 == updated@[s.released@[k].0 as int]
                &&& final(self).entries() == compact(
                    slots(updated@, old(self).spec_cancelables(), old(self).spec_callbacks()),
                    removal_order(s.released@),
                )
            },
    {
        let n = self.requests.len();
        if updated.len() != n {
            return None;
        }
        let ghost done = indices(completed@);
        // mark the reported slots, refusing a slot out of range or named twice
        let mut marked: Vec<bool> = Vec::new();
        let mut p: usize = 0;
        while p < n
            invariant
                p <= n,
                marked@.len() == p,
                forall|q: int| 0 <= q < p ==> !#[trigger] marked@[q],
            decreases n - p,
        {
            marked.push(false);
            p = p + 1;
        }
        let mut k: usize = 0;
        while k < completed.len()
            invariant
                *self == *old(self),
                self.wf(),
                n == self.requests@.len(),
                done == indices(completed@),
                k <= completed@.len(),
                marked@.len() == n,
                within(done.take(k as int), n as int),
                done.take(k as int).no_duplicates(),
                forall|q: int| 0 <= q < n ==> (#[trigger] marked@[q] <==> done.take(k as int).contains(q)),
            decreases completed@.len() - k,
        {
            let c = completed[k];
            if c < 0 || c as usize >= n {
                assert(!within(done, n as int)) by {
                    assert(done[k as int] == c as int);
                }
                return None;
            }
            let i = c as usize;
            assert(done[k as int] == i);
            if marked[i] {
                assert(!done.no_duplicates()) by {
                    let t = done.take(k as int);
                    assert(t.contains(i as int));
                    let j = choose|j: int| 0 <= j < t.len() && t[j] == i as int;
                    assert(done[j] == done[k as int]);
                }
                return None;
            }
            let ghost m0 = marked@;
            marked.set(i, true);
            assert(done.take(k + 1) == done.take(k as int).push(i as int));
            assert forall|q: int| 0 <= q < n implies (#[trigger] marked@[q] <==> done.take(k + 1).contains(q)) by {
                let t1 = done.take(k + 1);
                if q != i {
                    assert(marked@[q] == m0[q]);
                    if t1.contains(q) {
                        let j = choose|j: int| 0 <= j < t1.len() && t1[j] == q;
                        assert(done.take(k as int)[j] == q);
                    }
                } else {
                    assert(t1[k as int] == q);
                }
            }
            k = k + 1;
        }
        assert(done.take(completed@.len() as int) == done);
        assert(valid_report(completed@, n as int));
        // hand out the callbacks in the reported order
        let ghost cbs0 = self.callbacks@;
        let mut out: Vec<C> = Vec::new();
        let mut k: usize = 0;
        while k < completed.len()
            invariant
                n == self.requests@.len(),
                done == indices(completed@),
                valid_report(completed@, n as int),
                k <= completed@.len(),
                self.requests == old(self).requests,
                self.cancelables == old(self).cancelables,
                cbs0 == old(self).callbacks@,
                cbs0.len() == n,
                old(self).wf(),
                self.callbacks@.len() == n,
                forall|q: int|
                    0 <= q < n ==> (#[trigger] self.callbacks@[q] is None <==> done.take(
                        k as int,
                    ).contains(q)),
                forall|q: int|
                    0 <= q < n && #[trigger] self.callbacks@[q] is Some ==> self.callbacks@[q]
                        == cbs0[q],
                forall|q: int| 0 <= q < n ==> #[trigger] cbs0[q] is Some,
                out@ == done.take(k as int).map_values(|i: int| old(self).spec_callbacks()[i]),
            decreases completed@.len() - k,
        {
            let i = completed[k] as usize;
            assert(done[k as int] == i);
            assert(!done.take(k as int).contains(i as int)) by {
                if done.take(k as int).contains(i as int) {
                    let j = choose|j: int| 0 <= j < k && done.take(k as int)[j] == i as int;
                    assert(done[j] == done[k as int]);
                }
            }
            let ghost before = self.callbacks@;
            let cb = self.callbacks[i].take();
            assert(done.take(k + 1) == done.take(k as int).push(i as int));
            assert(self.callbacks@ == before.update(i as int, None));
            assert(before[i as int] == cbs0[i as int]);
            assert forall|q: int| 0 <= q < n implies (#[trigger] self.callbacks@[q] is None <==> done.take(
                        k + 1,
                    ).contains(q)) by {
                if q != i {
                    let t1 = done.take(k + 1);
                    if t1.contains(q) {
                        let j = choose|j: int| 0 <= j < t1.len() && t1[j] == q;
                        assert(done.take(k as int)[j] == q);
                    }
                } else {
                    assert(done.take(k + 1)[k as int] == q);
                }
            }
            assert(cb == cbs0[i as int]);
            match cb {
                Some(f) => {
                    assert(old(self).callbacks@.len() == n);
                    assert(old(self).spec_callbacks()[i as int] == old(self).callbacks@[i as int]->0);
                    out.push(f);
                },
                None => {
                    assert(false);
                },
            }
            assert(out@ =~= done.take(k + 1).map_values(|i: int| old(self).spec_callbacks()[i]));
            k = k + 1;
        }
        assert(done.take(completed@.len() as int) == done);
        // compact: swap-remove the reported slots from the highest down
        let ghost cbs1 = self.callbacks@;
        let ghost start = slots(updated@, self.cancelables@, cbs1);
        self.requests = updated;
        let mut released: Vec<(usize, R)> = Vec::new();
        let mut q: usize = n;
        while q > 0
            invariant
                q <= n,
                done == indices(completed@),
                valid_report(completed@, n as int),
                start == slots(updated@, old(self).cancelables@, cbs1),
                updated@.len() == n,
                cbs1.len() == n,
                marked@.len() == n,
                forall|p: int| 0 <= p < n ==> (#[trigger] marked@[p] <==> done.contains(p)),
                removal_order(released@) == descending_positions(done, q as int, n as int),
                strictly_descending(removal_order(released@)),
                within(removal_order(released@), n as int),
                forall|k: int| 0 <= k < released@.len() ==> q <= #[trigger] removal_order(released@)[k],
                forall|p: int|
                    #![trigger removal_order(released@).contains(p)]
                    q <= p < n ==> (marked@[p] <==> removal_order(released@).contains(p)),
                forall|k: int|
                    0 <= k < released@.len() ==> (#[trigger] released@[k]).1 == updated@[released@[k].0 as int],
                self.requests@.len() == n - released@.len(),
                self.cancelables@.len() == n - released@.len(),
                self.callbacks@.len() == n - released@.len(),
                slots(self.requests@, self.cancelables@, self.callbacks@) == compact(start, removal_order(released@)),
            decreases q,
        {
            q = q - 1;
            if marked[q] {
                let ghost order = removal_order(released@);
                let ghost order2 = order.push(q as int);
                assert(strictly_descending(order2));
                assert(within(order2, n as int));
                proof {
                    lemma_descending_bound(order2, n as int);
                    lemma_compact_facts(start, order);
                }
                assert(order2.drop_last() == order);
                let ghost cur = slots(self.requests@, self.cancelables@, self.callbacks@);
                assert(cur[q as int] == start[q as int]);
                let req = self.requests.swap_remove(q);
                self.cancelables.swap_remove(q);
                self.callbacks.swap_remove(q);
                released.push((q, req));
                assert(removal_order(released@) =~= order2);
                assert(slots(self.requests@, self.cancelables@, self.callbacks@) =~= swap_removed(cur, q as int));
                assert forall|p: int| q <= p < n implies (marked@[p] <==> #[trigger] removal_order(released@).contains(p)) by {
                    if p == q {
                        assert(order2[order.len() as int] == p);
                    } else if order.contains(p) {
                        let j = choose|j: int| 0 <= j < order.len() && order[j] == p;
                        assert(order2[j] == p);
                    } else if order2.contains(p) {
                        let j = choose|j: int| 0 <= j < order2.len() && order2[j] == p;
                        if j < order.len() {
                            assert(order[j] == p);
                        }
                    }
                }
            } else {
                assert forall|p: int| q <= p < n implies (marked@[p] <==> #[trigger] removal_order(released@).contains(p)) by {
                    if p == q && removal_order(released@).contains(p) {
                        let j = choose|j: int| 0 <= j < released@.len() && removal_order(released@)[j] == p;
                    }
                }
            }
        }
        let ghost order = removal_order(released@);
        let ghost ps = compact(positions(n as int), order);
        proof {
            lemma_compaction_keeps_the_rest(start, order);
            let goal = slots(updated@, old(self).spec_cancelables(), old(self).spec_callbacks());
            lemma_compaction_keeps_the_rest(goal, order);
            assert forall|p: int| #![trigger done.contains(p)] order.contains(p) <==> done.contains(p) by {
                if order.contains(p) {
                    let j = choose|j: int| 0 <= j < order.len() && order[j] == p;
                    assert(0 <= order[j] < n);
                }
            }
            assert(order.no_duplicates());
            assert(order.to_set() =~= done.to_set());
            order.unique_seq_to_set();
            done.unique_seq_to_set();
            assert forall|j: int| 0 <= j < ps.len() implies !done.contains(#[trigger] ps[j]) && 0 <= ps[j] < n by {
                assert(ps.contains(ps[j]));
            }
            assert forall|i: int| 0 <= i < self.callbacks@.len() implies #[trigger] self.callbacks@[i] is Some by {
                assert(self.callbacks@[i] == compact(start, order)[i].2);
                assert(compact(start, order)[i] == start[ps[i]]);
            }
            assert(self.entries() =~= compact(goal, order)) by {
                assert forall|i: int| 0 <= i < self.entries().len() implies self.entries()[i] == compact(goal, order)[i] by {
                    assert(compact(start, order)[i] == start[ps[i]]);
                    assert(compact(goal, order)[i] == goal[ps[i]]);
                    assert(self.callbacks@[i] == cbs1[ps[i]]);
                    assert(cbs1[ps[i]] == cbs0[ps[i]]);
                }
            }
        }
        Some(Settled { callbacks: out, released })
    }

    /// Which requests teardown cancels: those still live (not reset to null
    /// by the messaging layer) that are cancellable.  Sends are never
    /// cancelled.
    pub fn cancel_mask(&self, live: &Vec<bool>) -> (r: Vec<bool>)
        requires
            self.wf(),
            live@.len() == self.spec_len(),
        ensures
            r@.len() == self.spec_len(),
            forall|i: int|
                0 <= i < r@.len() ==> #[trigger] r@[i] == (live@[i] && self.spec_cancelables()[i]),
    {
        let mut mask: Vec<bool> = Vec::new();
        let mut i: usize = 0;
        while i < self.cancelables.len()
            invariant
                self.wf(),
                live@.len() == self.spec_len(),
                i <= self.cancelables@.len(),
                mask@.len() == i,
                forall|j: int|
                    0 <= j < i ==> #[trigger] mask@[j] == (live@[j] && self.spec_cancelables()[j]),
            decreases self.cancelables@.len() - i,
        {
            mask.push(live[i] && self.cancelables[i]);
            i = i + 1;
        }
        mask
    }
}

} // verus!
