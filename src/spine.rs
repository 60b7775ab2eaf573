//! The spine: pending batches in arrival order, and merged batches whose sizes
//! at least double from the newest to the oldest.
use vstd::prelude::*;
use std::rc::Rc;
use crate::batch::{Batch, BatchView, batch_views, batches_sorted, all_updates, lemma_all_updates_append};
use crate::cursor::CursorList;
use crate::frontier::{frontier_le, frontier_dominates, frontier_eq, lemma_frontier_le_trans};
use crate::update::{sorted, net, advanced, lemma_net_append, lemma_advanced_append};

verus! {

/// A usage error: a call that `check_insert` or `check_cursor` reports as
/// forbidden, and that `insert` and `cursor_through` rule out by their
/// preconditions.
#[derive(Clone, Copy, Debug, PartialEq, Eq, Structural)]
pub enum SpineError {
    /// The batch's lower frontier is not the spine's upper frontier.
    OutOfOrder,
    /// A batch with equal lower and upper frontiers holds updates.
    NonEmptyDegenerate,
    /// The spine's upper frontier is empty: no input can follow.
    Closed,
    /// The requested cut falls inside a pending batch.
    Straddle,
    /// The advance frontier is empty: every batch was discarded.
    Discarded,
}

/// An append-only collection of update batches.
pub struct Spine {
    advance_frontier: Vec<u64>,
    through_frontier: Vec<u64>,
    merging: Vec<Rc<Batch>>,
    pending: Vec<Rc<Batch>>,
    upper: Vec<u64>,
}

/// What a spine holds: its three frontiers and its two tiers of batches, the
/// oldest first in each.
pub struct SpineView {
    pub advance: Seq<u64>,
    pub through: Seq<u64>,
    pub upper: Seq<u64>,
    pub merging: Seq<BatchView>,
    pub pending: Seq<BatchView>,
}

impl View for Spine {
    type V = SpineView;

    closed spec fn view(&self) -> SpineView {
        SpineView {
            advance: self.advance_frontier@,
            through: self.through_frontier@,
            upper: self.upper@,
            merging: batch_views(self.merging@),
            pending: batch_views(self.pending@),
        }
    }
}

/// The pairs of adjacent batches among the first `n` of `bs` keep the doubling
/// discipline: each is at least twice the size of the one after it.
pub open spec fn doubling_upto(bs: Seq<BatchView>, n: int) -> bool {
    forall|i: int|
        0 < i < n ==> bs[i - 1].updates.len() >= 2 * (#[trigger] bs[i]).updates.len()
}

/// Every batch is at least twice the size of the one after it.
pub open spec fn doubling(bs: Seq<BatchView>) -> bool {
    doubling_upto(bs, bs.len() as int)
}

/// Each pending batch starts where the one before it ends, and the last ends at
/// `upper`.
pub open spec fn chained(ps: Seq<BatchView>, upper: Seq<u64>) -> bool {
    &&& forall|i: int| 0 < i < ps.len() ==> (#[trigger] ps[i]).lower == ps[i - 1].upper
    &&& ps.len() > 0 ==> ps.last().upper == upper
}

/// How many of the oldest pending batches end at or before `through`: those
/// the merge pass moves on.
pub open spec fn admitted(ps: Seq<BatchView>, through: Seq<u64>) -> nat
    decreases ps.len(),
{
    if ps.len() == 0 || !frontier_le(ps[0].upper, through) {
        0
    } else {
        1 + admitted(ps.drop_first(), through)
    }
}

/// Each merging batch starts where the one before it ends, and the newest
/// ends where the pending batches start, or at `upper` where none is pending.
pub open spec fn contiguous(ms: Seq<BatchView>, ps: Seq<BatchView>, upper: Seq<u64>) -> bool {
    &&& forall|i: int| 0 < i < ms.len() ==> (#[trigger] ms[i]).lower == ms[i - 1].upper
    &&& ms.len() > 0 ==> ms.last().upper == (if ps.len() > 0 {
        ps[0].lower
    } else {
        upper
    })
}

/// Every batch of `ms` ends at or before `through`.
pub open spec fn below_through(ms: Seq<BatchView>, through: Seq<u64>) -> bool {
    forall|i: int| 0 <= i < ms.len() ==> frontier_le((#[trigger] ms[i]).upper, through)
}

/// The spine's invariants but the last: its batches are sorted, sized,
/// chained and bounded.
pub open spec fn spine_shape(v: SpineView) -> bool {
    &&& batches_sorted(v.merging)
    &&& batches_sorted(v.pending)
    &&& doubling(v.merging)
    &&& chained(v.pending, v.upper)
    &&& contiguous(v.merging, v.pending, v.upper)
    &&& below_through(v.merging, v.through)
}

/// The spine's invariants: its shape, and no pending batch left that the
/// merge pass would move on.
pub open spec fn spine_wf(v: SpineView) -> bool {
    &&& spine_shape(v)
    &&& v.pending.len() > 0 ==> !frontier_le(v.pending[0].upper, v.through)
}

/// Whether the spine takes batch `b`: a batch whose bounds are equal must be
/// empty; any other must start at the spine's upper frontier, which must not
/// be empty.
pub open spec fn insert_ok(v: SpineView, b: BatchView) -> bool {
    if b.lower == b.upper {
        b.updates.len() == 0
    } else {
        v.upper.len() > 0 && b.lower == v.upper
    }
}

/// Whether the spine can answer a cut at `upper`: its batches were not
/// discarded, and a cut at or beyond the through frontier straddles no
/// pending batch.
pub open spec fn cursor_ok(v: SpineView, upper: Seq<u64>) -> bool {
    v.advance.len() > 0 && (frontier_le(v.through, upper) ==> !cut_straddles(v.pending, upper))
}

proof fn lemma_merge_keeps_bounds(
    m0: Seq<BatchView>,
    r: BatchView,
    ps: Seq<BatchView>,
    upper: Seq<u64>,
    through: Seq<u64>,
)
    requires
        m0.len() >= 2,
        r.lower == m0[m0.len() - 2].lower,
        r.upper == m0[m0.len() - 1].upper,
        contiguous(m0, ps, upper),
        below_through(m0, through),
    ensures
        contiguous(m0.subrange(0, m0.len() - 2).push(r), ps, upper),
        below_through(m0.subrange(0, m0.len() - 2).push(r), through),
{
    let n = m0.len() as int;
    let m1 = m0.subrange(0, n - 2).push(r);
    assert forall|i: int| 0 < i < m1.len() implies (#[trigger] m1[i]).lower == m1[i - 1].upper by {
        assert(m0[i].lower == m0[i - 1].upper);
    }
    assert forall|i: int| 0 <= i < m1.len() implies frontier_le((#[trigger] m1[i]).upper, through) by {
        if i < n - 2 {
            assert(frontier_le(m0[i].upper, through));
        } else {
            assert(frontier_le(m0[n - 1].upper, through));
        }
    }
}

/// The batches of `bs` that hold at least one update, in order.
pub open spec fn nonempty_batches(bs: Seq<BatchView>) -> Seq<BatchView>
    decreases bs.len(),
{
    if bs.len() == 0 {
        Seq::empty()
    } else if bs.last().updates.len() > 0 {
        nonempty_batches(bs.drop_last()).push(bs.last())
    } else {
        nonempty_batches(bs.drop_last())
    }
}

/// The batches of `bs` that end at or before `upper`, in order.
pub open spec fn batches_through(bs: Seq<BatchView>, upper: Seq<u64>) -> Seq<BatchView>
    decreases bs.len(),
{
    if bs.len() == 0 {
        Seq::empty()
    } else if frontier_le(bs.last().upper, upper) {
        batches_through(bs.drop_last(), upper).push(bs.last())
    } else {
        batches_through(bs.drop_last(), upper)
    }
}

/// The cut `upper` falls strictly inside batch `b`: it includes one of the
/// batch's bounds and not the other, and is not the batch's lower bound.
pub open spec fn straddles(b: BatchView, upper: Seq<u64>) -> bool {
    frontier_le(b.lower, upper) != frontier_le(b.upper, upper) && upper != b.lower
}

/// A cut that some pending batch straddles.
pub open spec fn cut_straddles(ps: Seq<BatchView>, upper: Seq<u64>) -> bool {
    exists|i: int| 0 <= i < ps.len() && straddles(#[trigger] ps[i], upper)
}

/// The spine after accepting batch `b` and running the merge pass leaves its
/// pending batches as these.
pub open spec fn pending_after(v: SpineView, b: BatchView) -> Seq<BatchView> {
    v.pending.push(b).skip(admitted(v.pending.push(b), v.through) as int)
}

/// The merging batches, followed by the pending ones that the merge pass moves
/// on after the spine accepts batch `b`.
pub open spec fn merged_after(v: SpineView, b: BatchView) -> Seq<BatchView> {
    v.merging + v.pending.push(b).take(admitted(v.pending.push(b), v.through) as int)
}

/// The batch that closes a spine whose upper frontier is `upper`.
pub open spec fn closing_batch(upper: Seq<u64>) -> BatchView {
    BatchView { lower: upper, upper: Seq::empty(), updates: Seq::empty() }
}

proof fn lemma_nonempty_keeps_updates(bs: Seq<BatchView>)
    ensures
        all_updates(nonempty_batches(bs)) == all_updates(bs),
    decreases bs.len(),
{
    if bs.len() > 0 {
        lemma_nonempty_keeps_updates(bs.drop_last());
        let ne = nonempty_batches(bs.drop_last());
        if bs.last().updates.len() > 0 {
            assert(ne.push(bs.last()).drop_last() =~= ne);
        } else {
            assert(all_updates(bs) =~= all_updates(bs.drop_last()));
        }
    }
}

/// A cursor over the non-empty merging batches and the pending batches that
/// end at or before `upper` reads every update of the merging batches and of
/// those pending batches, each as often as it is stored.
pub proof fn lemma_cursor_complete(merging: Seq<BatchView>, pending: Seq<BatchView>, upper: Seq<u64>)
    ensures
        all_updates(nonempty_batches(merging) + batches_through(pending, upper)).to_multiset()
            == all_updates(merging).to_multiset().add(
            all_updates(batches_through(pending, upper)).to_multiset(),
        ),
{
    let inc = batches_through(pending, upper);
    lemma_all_updates_append(nonempty_batches(merging), inc);
    lemma_nonempty_keeps_updates(merging);
    vstd::seq_lib::lemma_multiset_commutative(all_updates(merging), all_updates(inc));
}

/// While a batch of `blen` updates waits to join the merging tier: before any
/// merge the tier keeps the doubling discipline; after one, all but its newest
/// batch do, and the newest is at most twice some `p` below `blen` while the
/// one before it is at least twice `p`.
spec fn absorbing(m: Seq<BatchView>, merged: bool, p: int, blen: int) -> bool {
    &&& !merged ==> doubling(m)
    &&& merged ==> {
        &&& m.len() >= 1
        &&& doubling_upto(m, m.len() - 1)
        &&& m.last().updates.len() <= 2 * p
        &&& p < blen
        &&& m.len() >= 2 ==> m[m.len() - 2].updates.len() >= 2 * p
    }
}

proof fn lemma_absorb_step(m0: Seq<BatchView>, r: BatchView, merged: bool, p: int, blen: int)
    requires
        m0.len() >= 2,
        m0[m0.len() - 2].updates.len() < blen,
        r.updates.len() == m0[m0.len() - 2].updates.len() + m0[m0.len() - 1].updates.len(),
        absorbing(m0, merged, p, blen),
    ensures
        absorbing(
            m0.subrange(0, m0.len() - 2).push(r),
            true,
            m0[m0.len() - 2].updates.len() as int,
            blen,
        ),
{
    let n = m0.len() as int;
    let m1 = m0.subrange(0, n - 2).push(r);
    assert(doubling_upto(m0, n - 1));
    if !merged {
        assert(m0[n - 2].updates.len() >= 2 * m0[n - 1].updates.len());
    }
    assert forall|i: int| 0 < i < n - 2 implies m1[i - 1].updates.len() >= 2 * (
    #[trigger] m1[i]).updates.len() by {
        assert(m0[i - 1].updates.len() >= 2 * m0[i].updates.len());
    }
    if n >= 3 {
        assert(m0[n - 3].updates.len() >= 2 * m0[n - 2].updates.len());
    }
}

/// The net count of `(k, v, t)` over every update of the batches `bs`, with
/// times advanced by frontier `f`.
pub open spec fn tier_net(bs: Seq<BatchView>, f: Seq<u64>, k: u64, v: u64, t: u64) -> int {
    net(advanced(all_updates(bs), f), k, v, t)
}

proof fn lemma_tier_net_push(bs: Seq<BatchView>, b: BatchView, f: Seq<u64>, k: u64, v: u64, t: u64)
    ensures
        tier_net(bs.push(b), f, k, v, t) == tier_net(bs, f, k, v, t) + net(
            advanced(b.updates, f),
            k,
            v,
            t,
        ),
{
    assert(bs.push(b).drop_last() =~= bs);
    assert(all_updates(bs.push(b)) == all_updates(bs) + b.updates);
    lemma_advanced_append(all_updates(bs), b.updates, f);
    lemma_net_append(advanced(all_updates(bs), f), advanced(b.updates, f), k, v, t);
}

/// Replacing the two newest batches by their merge keeps the net counts.
proof fn lemma_merge_keeps_tier(m0: Seq<BatchView>, r: BatchView, f: Seq<u64>)
    requires
        m0.len() >= 2,
        forall|k: u64, v: u64, t: u64|
            #[trigger] net(advanced(r.updates, f), k, v, t) == net(
                advanced(m0[m0.len() - 2].updates, f),
                k,
                v,
                t,
            ) + net(advanced(m0[m0.len() - 1].updates, f), k, v, t),
    ensures
        forall|k: u64, v: u64, t: u64|
            #[trigger] tier_net(m0.subrange(0, m0.len() - 2).push(r), f, k, v, t) == tier_net(
                m0,
                f,
                k,
                v,
                t,
            ),
{
    let n = m0.len() as int;
    let pre = m0.subrange(0, n - 2);
    assert(m0 =~= pre.push(m0[n - 2]).push(m0[n - 1]));
    assert forall|k: u64, v: u64, t: u64|
        #[trigger] tier_net(pre.push(r), f, k, v, t) == tier_net(m0, f, k, v, t) by {
        lemma_tier_net_push(pre, r, f, k, v, t);
        lemma_tier_net_push(pre, m0[n - 2], f, k, v, t);
        lemma_tier_net_push(pre.push(m0[n - 2]), m0[n - 1], f, k, v, t);
        assert(net(advanced(r.updates, f), k, v, t) == net(advanced(m0[n - 2].updates, f), k, v, t)
            + net(advanced(m0[n - 1].updates, f), k, v, t));
    }
}

/// The merging tier `ms` is empty exactly when the batches `q` it was built
/// from are, and every batch of it above the oldest holds exactly the updates
/// of a run of the newest batches of `q`: only the oldest may have been
/// consolidated.
pub open spec fn exact_above_bottom(ms: Seq<BatchView>, q: Seq<BatchView>) -> bool {
    &&& (ms.len() == 0) == (q.len() == 0)
    &&& ms.len() > 0 ==> exists|j: int|
        1 <= j <= q.len() && #[trigger] all_updates(ms.skip(1)).to_multiset() == all_updates(
            q.skip(j),
        ).to_multiset()
}

/// `exact_above_bottom` with its run of `q` starting at `j`.
spec fn exact_from(ms: Seq<BatchView>, q: Seq<BatchView>, j: int) -> bool {
    &&& (ms.len() == 0) == (q.len() == 0)
    &&& ms.len() > 0 ==> 1 <= j <= q.len() && all_updates(ms.skip(1)).to_multiset()
        == all_updates(q.skip(j)).to_multiset()
}

proof fn lemma_exact_from(ms: Seq<BatchView>, q: Seq<BatchView>, j: int)
    requires
        exact_from(ms, q, j),
    ensures
        exact_above_bottom(ms, q),
{
    if ms.len() > 0 {
        assert(all_updates(ms.skip(1)).to_multiset() == all_updates(q.skip(j)).to_multiset());
    }
}

proof fn lemma_all_updates_push(x: Seq<BatchView>, b: BatchView)
    ensures
        all_updates(x.push(b)) == all_updates(x) + b.updates,
        all_updates(x.push(b)).to_multiset() == all_updates(x).to_multiset().add(
            b.updates.to_multiset(),
        ),
{
    assert(x.push(b).drop_last() =~= x);
    vstd::seq_lib::lemma_multiset_commutative(all_updates(x), b.updates);
}

/// Pushing a batch onto both the tier and its sources keeps the relation.
proof fn lemma_exact_push(ms: Seq<BatchView>, q: Seq<BatchView>, j: int, b: BatchView)
    requires
        exact_from(ms, q, j),
    ensures
        exact_from(ms.push(b), q.push(b), if ms.len() == 0 { 1 } else { j }),
{
    if ms.len() == 0 {
        assert(ms.push(b).skip(1) =~= Seq::<BatchView>::empty());
        assert(q.push(b).skip(1) =~= Seq::<BatchView>::empty());
    } else {
        assert(ms.push(b).skip(1) =~= ms.skip(1).push(b));
        assert(q.push(b).skip(j) =~= q.skip(j).push(b));
        lemma_all_updates_push(ms.skip(1), b);
        lemma_all_updates_push(q.skip(j), b);
    }
}

/// Replacing the two newest batches by their exact union keeps the relation;
/// a merge that leaves a single batch keeps it whatever that batch holds.
proof fn lemma_exact_merge(ms: Seq<BatchView>, q: Seq<BatchView>, j: int, r: BatchView)
    requires
        ms.len() >= 2,
        exact_from(ms, q, j),
        ms.len() > 2 ==> r.updates.to_multiset() == ms[ms.len() - 2].updates.to_multiset().add(
            ms[ms.len() - 1].updates.to_multiset(),
        ),
    ensures
        exact_from(
            ms.subrange(0, ms.len() - 2).push(r),
            q,
            if ms.len() == 2 { q.len() as int } else { j },
        ),
{
    let n = ms.len() as int;
    let m1 = ms.subrange(0, n - 2).push(r);
    if n == 2 {
        assert(m1.skip(1) =~= Seq::<BatchView>::empty());
        assert(q.skip(q.len() as int) =~= Seq::<BatchView>::empty());
    } else {
        let a = ms.subrange(1, n - 2);
        assert(m1.skip(1) =~= a.push(r));
        assert(ms.skip(1) =~= a.push(ms[n - 2]).push(ms[n - 1]));
        lemma_all_updates_push(a, r);
        lemma_all_updates_push(a, ms[n - 2]);
        lemma_all_updates_push(a.push(ms[n - 2]), ms[n - 1]);
        assert(all_updates(m1.skip(1)).to_multiset() =~= all_updates(ms.skip(1)).to_multiset());
    }
}

/// Whether `a < 2 * b`, without overflow.
fn less_than_twice(a: usize, b: usize) -> (r: bool)
    ensures
        r == (a < 2 * b),
{
    a < b || a - b < b
}

impl Spine {
    pub open spec fn wf(&self) -> bool {
        spine_wf(self@)
    }

    /// An empty spine with every frontier at the least time.
    pub fn new() -> (r: Spine)
        ensures
            r.wf(),
            r@.advance == seq![0u64],
            r@.through == seq![0u64],
            r@.upper == seq![0u64],
            r@.merging.len() == 0,
            r@.pending.len() == 0,
    {
        let r = Spine {
            advance_frontier: vec![0u64],
            through_frontier: vec![0u64],
            merging: Vec::new(),
            pending: Vec::new(),
            upper: vec![0u64],
        };
        assert(r@.advance =~= seq![0u64]);
        assert(r@.through =~= seq![0u64]);
        assert(r@.upper =~= seq![0u64]);
        r
    }

    /// Classifies what `insert` would make of `batch`: `Ok` where the spine
    /// takes it, else the usage error that forbids it.
    pub fn check_insert(&self, batch: &Batch) -> (r: Result<(), SpineError>)
        ensures
            r is Ok <==> insert_ok(self@, batch@),
            batch@.lower == batch@.upper && batch@.updates.len() > 0 ==> r == Err::<
                (),
                SpineError,
            >(SpineError::NonEmptyDegenerate),
            batch@.lower != batch@.upper && self@.upper.len() == 0 ==> r == Err::<(), SpineError>(
                SpineError::Closed,
            ),
            batch@.lower != batch@.upper && self@.upper.len() > 0 && batch@.lower != self@.upper
                ==> r == Err::<(), SpineError>(SpineError::OutOfOrder),
    {
        if frontier_eq(batch.lower(), batch.upper()) {
            if batch.len() == 0 {
                Ok(())
            } else {
                Err(SpineError::NonEmptyDegenerate)
            }
        } else if self.upper.len() == 0 {
            Err(SpineError::Closed)
        } else if !frontier_eq(batch.lower(), &self.upper) {
            Err(SpineError::OutOfOrder)
        } else {
            Ok(())
        }
    }

    /// Adds `batch`, which must start where the spine's input so far ends.
    /// A batch whose bounds are equal is dropped; it must be empty.
    pub fn insert(&mut self, batch: Batch)
        requires
            old(self).wf(),
            batch.wf(),
            insert_ok(old(self)@, batch@),
        ensures
            final(self).wf(),
            doubling(final(self)@.merging),
            batch@.lower == batch@.upper ==> final(self)@ == old(self)@,
            batch@.lower != batch@.upper ==> {
                &&& final(self)@.upper == batch@.upper
                &&& final(self)@.advance == old(self)@.advance
                &&& final(self)@.through == old(self)@.through
                &&& final(self)@.pending == pending_after(old(self)@, batch@)
                &&& admitted(old(self)@.pending.push(batch@), old(self)@.through) == 0
                    ==> final(self)@.merging == old(self)@.merging
                &&& exact_above_bottom(final(self)@.merging, merged_after(old(self)@, batch@))
                &&& old(self)@.merging.len() == 0 && admitted(
                    old(self)@.pending.push(batch@),
                    old(self)@.through,
                ) == 1 ==> final(self)@.merging == seq![old(self)@.pending.push(batch@)[0]]
                &&& forall|k: u64, v: u64, t: u64|
                    #[trigger] tier_net(final(self)@.merging, old(self)@.advance, k, v, t)
                        == tier_net(merged_after(old(self)@, batch@), old(self)@.advance, k, v, t)
            },
    {
        if !frontier_eq(batch.lower(), batch.upper()) {
            let ghost v0 = self@;
            self.upper = batch.upper().clone();
            self.pending.push(Rc::new(batch));
            assert(self@.pending =~= v0.pending.push(batch@));
            assert(v0.pending.len() > 0 ==> self@.pending[0] == v0.pending[0]);
            self.consider_merges();
        }
    }

    /// Ends the input: inserts an empty batch from the upper frontier to the
    /// empty frontier. A closed spine is left as it is.
    pub fn close(&mut self)
        requires
            old(self).wf(),
        ensures
            final(self).wf(),
            doubling(final(self)@.merging),
            final(self)@.upper.len() == 0,
            old(self)@.upper.len() == 0 ==> final(self)@ == old(self)@,
            old(self)@.upper.len() > 0 && old(self)@.pending.len() > 0 ==> final(self)@.pending
                == old(self)@.pending.push(closing_batch(old(self)@.upper)) && final(self)@.merging
                == old(self)@.merging,
            old(self)@.upper.len() > 0 ==> {
                &&& final(self)@.advance == old(self)@.advance
                &&& final(self)@.through == old(self)@.through
                &&& final(self)@.pending == pending_after(
                    old(self)@,
                    closing_batch(old(self)@.upper),
                )
                &&& admitted(
                    old(self)@.pending.push(closing_batch(old(self)@.upper)),
                    old(self)@.through,
                ) == 0 ==> final(self)@.merging == old(self)@.merging
                &&& exact_above_bottom(
                    final(self)@.merging,
                    merged_after(old(self)@, closing_batch(old(self)@.upper)),
                )
                &&& forall|k: u64, v: u64, t: u64|
                    #[trigger] tier_net(final(self)@.merging, old(self)@.advance, k, v, t)
                        == tier_net(
                        merged_after(old(self)@, closing_batch(old(self)@.upper)),
                        old(self)@.advance,
                        k,
                        v,
                        t,
                    )
            },
    {
        if self.upper.len() != 0 {
            let batch = Batch::empty(self.upper.clone(), Vec::new());
            assert(batch@.upper =~= Seq::<u64>::empty());
            assert(batch@.updates =~= Seq::empty());
            assert(batch@ == closing_batch(self@.upper));
            self.insert(batch);
        }
    }

    /// Sets the advance frontier; an empty one discards every batch.
    pub fn advance_by(&mut self, frontier: &Vec<u64>)
        requires
            old(self).wf(),
        ensures
            final(self).wf(),
            final(self)@.advance == frontier@,
            final(self)@.through == old(self)@.through,
            final(self)@.upper == old(self)@.upper,
            frontier@.len() == 0 ==> final(self)@.merging.len() == 0 && final(self)@.pending.len() == 0,
            frontier@.len() > 0 ==> final(self)@.merging == old(self)@.merging && final(self)@.pending == old(self)@.pending,
    {
        self.advance_frontier = frontier.clone();
        if self.advance_frontier.len() == 0 {
            self.pending.clear();
            self.merging.clear();
            assert(self@.merging =~= Seq::empty());
            assert(self@.pending =~= Seq::empty());
        }
    }

    pub fn advance_frontier(&self) -> (r: &Vec<u64>)
        ensures
            r@ == self@.advance,
    {
        &self.advance_frontier
    }

    /// Sets the through frontier, then moves on the pending batches that now
    /// end at or before it.
    pub fn distinguish_since(&mut self, frontier: &Vec<u64>)
        requires
            old(self).wf(),
            frontier_le(old(self)@.through, frontier@),
        ensures
            final(self).wf(),
            doubling(final(self)@.merging),
            final(self)@.through == frontier@,
            final(self)@.advance == old(self)@.advance,
            final(self)@.upper == old(self)@.upper,
            final(self)@.pending == old(self)@.pending.skip(
                admitted(old(self)@.pending, frontier@) as int,
            ),
            admitted(old(self)@.pending, frontier@) == 0 ==> final(self)@.merging == old(
                self,
            )@.merging,
            old(self)@.merging.len() == 0 && admitted(old(self)@.pending, frontier@) == 1
                ==> final(self)@.merging == seq![old(self)@.pending[0]],
            exact_above_bottom(
                final(self)@.merging,
                old(self)@.merging + old(self)@.pending.take(
                    admitted(old(self)@.pending, frontier@) as int,
                ),
            ),
            forall|k: u64, v: u64, t: u64|
                #[trigger] tier_net(final(self)@.merging, old(self)@.advance, k, v, t) == tier_net(
                    old(self)@.merging + old(self)@.pending.take(
                        admitted(old(self)@.pending, frontier@) as int,
                    ),
                    old(self)@.advance,
                    k,
                    v,
                    t,
                ),
    {
        let ghost v0 = self@;
        self.through_frontier = frontier.clone();
        assert(below_through(self@.merging, self@.through)) by {
            assert forall|i: int| 0 <= i < self@.merging.len() implies frontier_le(
                (#[trigger] self@.merging[i]).upper,
                self@.through,
            ) by {
                assert(frontier_le(v0.merging[i].upper, v0.through));
                lemma_frontier_le_trans(v0.merging[i].upper, v0.through, frontier@);
            }
        }
        self.consider_merges();
    }

    pub fn distinguish_frontier(&self) -> (r: &Vec<u64>)
        ensures
            r@ == self@.through,
    {
        &self.through_frontier
    }

    /// Every batch, the merging ones first, then the pending ones.
    pub fn map_batches(&self) -> (r: Vec<Rc<Batch>>)
        ensures
            batch_views(r@) == self@.merging + self@.pending,
    {
        let mut r: Vec<Rc<Batch>> = Vec::new();
        let mut i: usize = 0;
        while i < self.merging.len()
            invariant
                i <= self.merging@.len(),
                batch_views(r@) =~= self@.merging.subrange(0, i as int),
            decreases self.merging@.len() - i,
        {
            let ghost r0 = r@;
            r.push(self.merging[i].clone());
            assert(batch_views(r@) =~= batch_views(r0).push(self@.merging[i as int]));
            i = i + 1;
        }
        let mut j: usize = 0;
        while j < self.pending.len()
            invariant
                i == self.merging@.len(),
                j <= self.pending@.len(),
                batch_views(r@) =~= self@.merging + self@.pending.subrange(
                    0,
                    j as int,
                ),
            decreases self.pending@.len() - j,
        {
            let ghost r0 = r@;
            r.push(self.pending[j].clone());
            assert(batch_views(r@) =~= batch_views(r0).push(self@.pending[j as int]));
            j = j + 1;
        }
        assert(self@.pending.subrange(0, j as int) =~= self@.pending);
        r
    }

    /// Whether some pending batch straddles the cut `upper`.
    fn straddled(&self, upper: &Vec<u64>) -> (r: bool)
        ensures
            r == cut_straddles(self@.pending, upper@),
    {
        let mut j: usize = 0;
        while j < self.pending.len()
            invariant
                j <= self@.pending.len(),
                forall|x: int| 0 <= x < j ==> !straddles(#[trigger] self@.pending[x], upper@),
            decreases self@.pending.len() - j,
        {
            let b = &self.pending[j];
            assert(b@ == self@.pending[j as int]);
            let include_lower = frontier_dominates(b.lower(), upper);
            let include_upper = frontier_dominates(b.upper(), upper);
            if include_lower != include_upper && !frontier_eq(upper, b.lower()) {
                assert(straddles(self@.pending[j as int], upper@));
                return true;
            }
            j = j + 1;
        }
        false
    }

    /// Classifies what `cursor_through(upper)` would meet: `Ok` where it can
    /// answer, else the usage error that forbids the query.
    pub fn check_cursor(&self, upper: &Vec<u64>) -> (r: Result<(), SpineError>)
        ensures
            r is Ok <==> cursor_ok(self@, upper@),
            self@.advance.len() == 0 ==> r == Err::<(), SpineError>(SpineError::Discarded),
            self@.advance.len() > 0 && !cursor_ok(self@, upper@) ==> r == Err::<(), SpineError>(
                SpineError::Straddle,
            ),
    {
        if self.advance_frontier.len() == 0 {
            Err(SpineError::Discarded)
        } else if frontier_dominates(&self.through_frontier, upper) && self.straddled(upper) {
            Err(SpineError::Straddle)
        } else {
            Ok(())
        }
    }

    /// A cursor over every non-empty merging batch and every pending batch
    /// that ends at or before `upper`. `None` where `upper` is not at or
    /// beyond the through frontier.
    pub fn cursor_through(&self, upper: &Vec<u64>) -> (r: Option<CursorList>)
        requires
            self.wf(),
            cursor_ok(self@, upper@),
        ensures
            !frontier_le(self@.through, upper@) ==> r is None,
            frontier_le(self@.through, upper@) ==> (r matches Some(c) && c.wf() && c@
                == nonempty_batches(self@.merging) + batches_through(self@.pending, upper@)),
    {
        if !frontier_dominates(&self.through_frontier, upper) {
            return None;
        }
        let mut storage: Vec<Rc<Batch>> = Vec::new();
        let mut i: usize = 0;
        while i < self.merging.len()
            invariant
                self.wf(),
                i <= self.merging@.len(),
                batch_views(storage@) =~= nonempty_batches(self@.merging.subrange(0, i as int)),
                batches_sorted(batch_views(storage@)),
            decreases self.merging@.len() - i,
        {
            let ghost pre = self@.merging.subrange(0, i as int);
            assert(self@.merging.subrange(0, i + 1).drop_last() =~= pre);
            assert(self.merging@[i as int]@ == self@.merging[i as int]);
            let ghost s0 = storage@;
            if self.merging[i].len() > 0 {
                storage.push(self.merging[i].clone());
                assert(batch_views(storage@) =~= batch_views(s0).push(self@.merging[i as int]));
            }
            i = i + 1;
        }
        assert(self@.merging.subrange(0, i as int) =~= self@.merging);
        let ghost base = batch_views(storage@);
        let mut j: usize = 0;
        while j < self.pending.len()
            invariant
                batches_sorted(self@.pending),
                j <= self@.pending.len(),
                base == nonempty_batches(self@.merging),
                batch_views(storage@) =~= base + batches_through(
                    self@.pending.subrange(0, j as int),
                    upper@,
                ),
                batches_sorted(batch_views(storage@)),
            decreases self@.pending.len() - j,
        {
            let ghost pre = self@.pending.subrange(0, j as int);
            assert(self@.pending.subrange(0, j + 1).drop_last() =~= pre);
            let b = &self.pending[j];
            assert(b@ == self@.pending[j as int]);
            let ghost s0 = storage@;
            if frontier_dominates(b.upper(), upper) {
                storage.push(b.clone());
                assert(batch_views(storage@) =~= batch_views(s0).push(self@.pending[j as int]));
            }
            j = j + 1;
        }
        assert(self@.pending.subrange(0, j as int) =~= self@.pending);
        Some(CursorList::new(storage))
    }

    /// Whether the oldest pending batch ends at or before the through frontier.
    fn oldest_admissible(&self) -> (r: bool)
        ensures
            r == (self@.pending.len() > 0 && frontier_le(self@.pending[0].upper, self@.through)),
    {
        self.pending.len() > 0 && frontier_dominates(self.pending[0].upper(), &self.through_frontier)
    }

    /// Moves the oldest pending batch into the merging tier: first merges the
    /// newest merging batches while the one below the newest is smaller than
    /// it, then pushes it and merges while sizes fail to double.
    fn admit_oldest(&mut self, Ghost(q): Ghost<Seq<BatchView>>, Ghost(j): Ghost<int>) -> (r: Ghost<
        int,
    >)
        requires
            spine_shape(old(self)@),
            old(self)@.pending.len() > 0,
            frontier_le(old(self)@.pending[0].upper, old(self)@.through),
            exact_from(old(self)@.merging, q, j),
            forall|k: u64, v: u64, t: u64|
                #[trigger] tier_net(old(self)@.merging, old(self)@.advance, k, v, t) == tier_net(
                    q,
                    old(self)@.advance,
                    k,
                    v,
                    t,
                ),
        ensures
            spine_shape(final(self)@),
            final(self)@.advance == old(self)@.advance,
            final(self)@.through == old(self)@.through,
            final(self)@.upper == old(self)@.upper,
            final(self)@.pending == old(self)@.pending.drop_first(),
            exact_from(final(self)@.merging, q.push(old(self)@.pending[0]), r@),
            old(self)@.merging.len() == 0 ==> final(self)@.merging == seq![old(self)@.pending[0]],
            forall|k: u64, v: u64, t: u64|
                #[trigger] tier_net(final(self)@.merging, old(self)@.advance, k, v, t) == tier_net(
                    q.push(old(self)@.pending[0]),
                    old(self)@.advance,
                    k,
                    v,
                    t,
                ),
    {
        let ghost f = self@.advance;
        let ghost mut jj: int = j;
        let ghost m_start = self@.merging;
        let ghost p0 = self@.pending;
        let batch = self.pending.remove(0);
        assert(self@.pending =~= p0.drop_first());
        assert(p0 =~= seq![batch@] + self@.pending);
        assert(frontier_le(batch@.upper, self@.through));
        assert(self@.pending.len() > 0 ==> self@.pending[0] == p0[1]);
        let ghost bv = batch@;
        let ghost target = q.push(bv);
        assert forall|k: u64, v: u64, t: u64|
            #[trigger] tier_net(self@.merging, f, k, v, t) + net(advanced(bv.updates, f), k, v, t)
                == tier_net(target, f, k, v, t) by {
            lemma_tier_net_push(q, bv, f, k, v, t);
        }
        assert(sorted(bv.updates));
        let blen = batch.len();
        let ghost mut merged = false;
        let ghost mut p: int = 0;
        while self.merging.len() >= 2 && self.merging[self.merging.len() - 2].len() < blen
            invariant
                batches_sorted(self@.merging),
                absorbing(self@.merging, merged, p, blen as int),
                blen == bv.updates.len(),
                batch@ == bv,
                self@.advance == old(self)@.advance,
                self@.through == old(self)@.through,
                self@.upper == old(self)@.upper,
                self@.pending == old(self)@.pending.drop_first(),
                f == self@.advance,
                contiguous(self@.merging, seq![bv] + self@.pending, self@.upper),
                exact_from(self@.merging, q, jj),
                m_start.len() == 0 ==> self@.merging.len() == 0,
                below_through(self@.merging, self@.through),
                forall|k: u64, v: u64, t: u64|
                    #[trigger] tier_net(self@.merging, f, k, v, t) + net(
                        advanced(bv.updates, f),
                        k,
                        v,
                        t,
                    ) == tier_net(target, f, k, v, t),
            decreases self@.merging.len(),
        {
            let ghost m0 = self@.merging;
            let b1 = self.merging.pop().unwrap();
            let b2 = self.merging.pop().unwrap();
            assert(m0[m0.len() - 1] == b1@);
            assert(m0[m0.len() - 2] == b2@);
            let result = b2.merge_with(&b1, None);
            self.merging.push(Rc::new(result));
            assert(self@.merging =~= m0.subrange(0, m0.len() - 2).push(result@));
            proof {
                lemma_merge_keeps_bounds(
                    m0,
                    result@,
                    seq![bv] + self@.pending,
                    self@.upper,
                    self@.through,
                );
                lemma_merge_keeps_tier(m0, result@, f);
                lemma_exact_merge(m0, q, jj, result@);
                if m0.len() == 2 {
                    jj = q.len() as int;
                }
                lemma_absorb_step(m0, result@, merged, p, blen as int);
                merged = true;
                p = b2@.updates.len() as int;
            }
        }
        let ghost m1 = self@.merging;
        self.merging.push(batch);
        assert(self@.merging =~= m1.push(bv));
        assert(m1.len() > 0 ==> m1.last().upper == bv.lower);
        assert(m_start.len() == 0 ==> self@.merging =~= seq![bv]);
        proof {
            lemma_exact_push(m1, q, jj, bv);
            if m1.len() == 0 {
                jj = 1;
            }
        }
        assert(contiguous(self@.merging, self@.pending, self@.upper)) by {
            assert forall|i: int| 0 < i < self@.merging.len() implies (
            #[trigger] self@.merging[i]).lower == self@.merging[i - 1].upper by {
                if i < m1.len() {
                    assert(m1[i].lower == m1[i - 1].upper);
                }
            }
        }
        assert(below_through(self@.merging, self@.through)) by {
            assert forall|i: int| 0 <= i < self@.merging.len() implies frontier_le(
                (#[trigger] self@.merging[i]).upper,
                self@.through,
            ) by {
                if i < m1.len() {
                    assert(frontier_le(m1[i].upper, self@.through));
                }
            }
        }
        assert forall|k: u64, v: u64, t: u64|
            #[trigger] tier_net(self@.merging, f, k, v, t) == tier_net(target, f, k, v, t) by {
            lemma_tier_net_push(m1, bv, f, k, v, t);
        }
        let mut len = self.merging.len();
        while len >= 2 && less_than_twice(
            self.merging[len - 2].len(),
            self.merging[len - 1].len(),
        )
            invariant
                len == self@.merging.len(),
                len >= 1,
                batches_sorted(self@.merging),
                doubling_upto(self@.merging, len - 1) || (len >= 2 && doubling_upto(
                    self@.merging,
                    len - 2,
                ) && self@.merging[len - 2].updates.len() < 2 * self@.merging[len
                    - 1].updates.len()),
                self@.advance == old(self)@.advance,
                self@.through == old(self)@.through,
                self@.upper == old(self)@.upper,
                self@.pending == old(self)@.pending.drop_first(),
                f == self@.advance,
                contiguous(self@.merging, self@.pending, self@.upper),
                below_through(self@.merging, self@.through),
                exact_from(self@.merging, target, jj),
                m_start.len() == 0 ==> self@.merging == seq![bv],
                forall|k: u64, v: u64, t: u64|
                    #[trigger] tier_net(self@.merging, f, k, v, t) == tier_net(
                        target,
                        f,
                        k,
                        v,
                        t,
                    ),
            decreases len,
        {
            let ghost m0 = self@.merging;
            let b1 = self.merging.pop().unwrap();
            let b2 = self.merging.pop().unwrap();
            assert(m0[m0.len() - 1] == b1@);
            assert(m0[m0.len() - 2] == b2@);
            let result = if self.merging.len() == 0 {
                b2.merge_with(&b1, Some(&self.advance_frontier))
            } else {
                b2.merge_with(&b1, None)
            };
            self.merging.push(Rc::new(result));
            assert(self@.merging =~= m0.subrange(0, m0.len() - 2).push(result@));
            proof {
                lemma_merge_keeps_bounds(m0, result@, self@.pending, self@.upper, self@.through);
                lemma_merge_keeps_tier(m0, result@, f);
                lemma_exact_merge(m0, target, jj, result@);
                if m0.len() == 2 {
                    jj = target.len() as int;
                }
            }
            len = self.merging.len();
        }
        Ghost(jj)
    }

    /// Moves the pending batches that end at or before the through frontier
    /// into the merging tier, merging so that sizes keep doubling.
    fn consider_merges(&mut self)
        requires
            spine_shape(old(self)@),
        ensures
            spine_wf(final(self)@),
            final(self)@.advance == old(self)@.advance,
            final(self)@.through == old(self)@.through,
            final(self)@.upper == old(self)@.upper,
            final(self)@.pending == old(self)@.pending.skip(
                admitted(old(self)@.pending, old(self)@.through) as int,
            ),
            admitted(old(self)@.pending, old(self)@.through) == 0 ==> final(self)@ == old(self)@,
            old(self)@.merging.len() == 0 && admitted(old(self)@.pending, old(self)@.through) == 1
                ==> final(self)@.merging == seq![old(self)@.pending[0]],
            exact_above_bottom(
                final(self)@.merging,
                old(self)@.merging + old(self)@.pending.take(
                    admitted(old(self)@.pending, old(self)@.through) as int,
                ),
            ),
            forall|k: u64, v: u64, t: u64|
                #[trigger] tier_net(final(self)@.merging, old(self)@.advance, k, v, t) == tier_net(
                    old(self)@.merging + old(self)@.pending.take(
                        admitted(old(self)@.pending, old(self)@.through) as int,
                    ),
                    old(self)@.advance,
                    k,
                    v,
                    t,
                ),
    {
        let ghost old_pending = self@.pending;
        let ghost old_merging = self@.merging;
        let ghost f = self@.advance;
        assert(old_merging + old_pending.take(0) =~= old_merging);
        let ghost mut c: int = 0;
        let ghost mut jj: int = 1;
        assert(self@.pending =~= old_pending.skip(0));
        while self.oldest_admissible()
            invariant
                spine_shape(self@),
                self@.advance == old(self)@.advance,
                self@.through == old(self)@.through,
                self@.upper == old(self)@.upper,
                old_pending == old(self)@.pending,
                0 <= c <= old_pending.len(),
                self@.pending == old_pending.skip(c),
                admitted(old_pending, self@.through) == c + admitted(self@.pending, self@.through),
                c == 0 ==> self@ == old(self)@,
                old_merging == old(self)@.merging,
                exact_from(self@.merging, old_merging + old_pending.take(c), jj),
                old_merging.len() == 0 && c == 1 ==> self@.merging == seq![old_pending[0]],
                f == self@.advance,
                forall|k: u64, v: u64, t: u64|
                    #[trigger] tier_net(self@.merging, f, k, v, t) == tier_net(
                        old_merging + old_pending.take(c),
                        f,
                        k,
                        v,
                        t,
                    ),
            decreases self@.pending.len(),
        {
            let ghost q = old_merging + old_pending.take(c);
            let ghost p0 = self@.pending;
            let g = self.admit_oldest(Ghost(q), Ghost(jj));
            proof {
                assert(c == 0 ==> p0[0] == old_pending[0]);
                assert(old_pending[c] == p0[0]);
                assert(old_merging + old_pending.take(c + 1) =~= q.push(p0[0]));
                assert(self@.pending =~= old_pending.skip(c + 1));
                c = c + 1;
                jj = g@;
            }
        }
        proof {
            lemma_exact_from(self@.merging, old_merging + old_pending.take(c), jj);
        }
    }
}

} // verus!
