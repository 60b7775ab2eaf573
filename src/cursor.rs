//! A cursor over several batches at once, read as one sorted run.
use vstd::prelude::*;
use std::rc::Rc;
use crate::batch::{Batch, BatchView, batch_views, batches_sorted, all_updates};
use crate::update::{Update, sorted, merge_sorted};

verus! {

broadcast use vstd::seq_lib::group_to_multiset_ensures;

/// The batches a cursor reads, kept alive for as long as the cursor is.
pub struct CursorList {
    storage: Vec<Rc<Batch>>,
}

impl View for CursorList {
    type V = Seq<BatchView>;

    closed spec fn view(&self) -> Seq<BatchView> {
        batch_views(self.storage@)
    }
}

impl CursorList {
    pub open spec fn wf(&self) -> bool {
        batches_sorted(self@)
    }

    pub fn new(storage: Vec<Rc<Batch>>) -> (r: CursorList)
        ensures
            r@ == batch_views(storage@),
    {
        CursorList { storage }
    }

    pub fn storage(&self) -> (r: &Vec<Rc<Batch>>)
        ensures
            batch_views(r@) == self@,
    {
        &self.storage
    }

    /// The updates of all batches as one run in `(key, value, time)` order.
    pub fn updates(&self) -> (r: Vec<Update>)
        requires
            self.wf(),
        ensures
            sorted(r@),
            r@.to_multiset() == all_updates(self@).to_multiset(),
    {
        let mut acc: Vec<Update> = Vec::new();
        let mut i: usize = 0;
        assert(all_updates(self@.subrange(0, 0)) =~= Seq::<Update>::empty());
        while i < self.storage.len()
            invariant
                i <= self@.len(),
                self@.len() == self.storage@.len(),
                self.wf(),
                sorted(acc@),
                acc@.to_multiset() == all_updates(self@.subrange(0, i as int)).to_multiset(),
            decreases self@.len() - i,
        {
            let b = &self.storage[i];
            assert(b@ == self@[i as int]);
            let next = merge_sorted(&acc, b.updates());
            let ghost pre = self@.subrange(0, i as int);
            assert(self@.subrange(0, i + 1).drop_last() =~= pre);
            proof {
                vstd::seq_lib::lemma_multiset_commutative(all_updates(pre), b@.updates);
            }
            acc = next;
            i = i + 1;
        }
        assert(self@.subrange(0, self@.len() as int) =~= self@);
        acc
    }
}

} // verus!
