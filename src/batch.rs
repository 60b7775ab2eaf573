//! Immutable batches of updates covering a half-open range of times.
use vstd::prelude::*;
use std::rc::Rc;
use crate::update::{Update, sorted, net, advanced, is_sorted, merge_sorted, merge_advanced};

verus! {

/// An immutable collection of updates, sorted by `(key, value, time)`, whose
/// times lie in `[lower, upper)`.
pub struct Batch {
    lower: Vec<u64>,
    upper: Vec<u64>,
    updates: Vec<Update>,
}

/// What a batch holds: its bounds and its updates.
pub struct BatchView {
    pub lower: Seq<u64>,
    pub upper: Seq<u64>,
    pub updates: Seq<Update>,
}

impl View for Batch {
    type V = BatchView;

    closed spec fn view(&self) -> BatchView {
        BatchView { lower: self.lower@, upper: self.upper@, updates: self.updates@ }
    }
}

impl Batch {
    pub open spec fn wf(&self) -> bool {
        sorted(self@.updates)
    }

    /// A batch of `updates` over `[lower, upper)`; `None` where the updates are
    /// not in `(key, value, time)` order.
    pub fn new(lower: Vec<u64>, updates: Vec<Update>, upper: Vec<u64>) -> (r: Option<Batch>)
        ensures
            r is Some <==> sorted(updates@),
            r matches Some(b) ==> b.wf() && b@.lower == lower@ && b@.upper == upper@
                && b@.updates == updates@,
    {
        if is_sorted(&updates) {
            Some(Batch { lower, upper, updates })
        } else {
            None
        }
    }

    /// A batch over `[lower, upper)` that holds no update.
    pub fn empty(lower: Vec<u64>, upper: Vec<u64>) -> (r: Batch)
        ensures
            r.wf(),
            r@.lower == lower@,
            r@.upper == upper@,
            r@.updates.len() == 0,
    {
        Batch { lower, upper, updates: Vec::new() }
    }

    pub fn lower(&self) -> (r: &Vec<u64>)
        ensures
            r@ == self@.lower,
    {
        &self.lower
    }

    pub fn upper(&self) -> (r: &Vec<u64>)
        ensures
            r@ == self@.upper,
    {
        &self.upper
    }

    pub fn len(&self) -> (r: usize)
        ensures
            r == self@.updates.len(),
    {
        self.updates.len()
    }

    pub fn updates(&self) -> (r: &Vec<Update>)
        ensures
            r@ == self@.updates,
    {
        &self.updates
    }

    /// Merges this batch with the `later` one that follows it. Without a
    /// frontier the result holds exactly the updates of both; with one, every
    /// time is advanced by it and equal updates are consolidated.
    pub fn merge_with(&self, later: &Batch, frontier: Option<&Vec<u64>>) -> (r: Batch)
        requires
            self.wf(),
            later.wf(),
        ensures
            r.wf(),
            r@.lower == self@.lower,
            r@.upper == later@.upper,
            frontier is None ==> r@.updates.len() == self@.updates.len() + later@.updates.len()
                && r@.updates.to_multiset() == self@.updates.to_multiset().add(
                later@.updates.to_multiset(),
            ),
            frontier is None ==> forall|g: Seq<u64>, k: u64, v: u64, t: u64|
                #[trigger] net(advanced(r@.updates, g), k, v, t) == net(
                    advanced(self@.updates, g),
                    k,
                    v,
                    t,
                ) + net(advanced(later@.updates, g), k, v, t),
            frontier matches Some(f) ==> forall|k: u64, v: u64, t: u64|
                #[trigger] net(r@.updates, k, v, t) == net(advanced(self@.updates, f@), k, v, t)
                    + net(advanced(later@.updates, f@), k, v, t),
            frontier matches Some(f) ==> advanced(r@.updates, f@) == r@.updates,
    {
        let updates = match frontier {
            None => merge_sorted(&self.updates, &later.updates),
            Some(f) => merge_advanced(&self.updates, &later.updates, f),
        };
        Batch { lower: self.lower.clone(), upper: later.upper.clone(), updates }
    }
}

/// The views of shared batches.
pub open spec fn batch_views(bs: Seq<Rc<Batch>>) -> Seq<BatchView> {
    bs.map_values(|b: Rc<Batch>| b@)
}

/// Every batch of `bs` holds its updates in `(key, value, time)` order.
pub open spec fn batches_sorted(bs: Seq<BatchView>) -> bool {
    forall|i: int| 0 <= i < bs.len() ==> sorted(#[trigger] bs[i].updates)
}

/// The updates of all batches of `bs`, batch after batch.
pub open spec fn all_updates(bs: Seq<BatchView>) -> Seq<Update>
    decreases bs.len(),
{
    if bs.len() == 0 {
        Seq::empty()
    } else {
        all_updates(bs.drop_last()) + bs.last().updates
    }
}

pub proof fn lemma_all_updates_append(a: Seq<BatchView>, b: Seq<BatchView>)
    ensures
        all_updates(a + b) == all_updates(a) + all_updates(b),
    decreases b.len(),
{
    if b.len() == 0 {
        assert(a + b =~= a);
        assert(all_updates(a) + all_updates(b) =~= all_updates(a));
    } else {
        assert((a + b).drop_last() =~= a + b.drop_last());
        lemma_all_updates_append(a, b.drop_last());
        assert(all_updates(a + b) =~= all_updates(a) + all_updates(b));
    }
}

} // verus!
