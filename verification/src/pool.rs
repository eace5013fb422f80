//! The pool of pre-bound sockets that the proxy keeps warm, each with the
//! source address it was bound to.
use vstd::prelude::*;

verus! {

/// How many sockets one warm-up round prepares.
pub const WARMUP_BATCH: usize = 16;

/// Items prepared ahead of use, handed out last-in first-out. One item is
/// always held back: an item is handed out only while more than one is
/// ready, so that a warm-up round can start before the pool runs dry.
pub struct WarmPool<T> {
    items: Vec<T>,
}

impl<T> View for WarmPool<T> {
    type V = Seq<T>;

    closed spec fn view(&self) -> Seq<T> {
        self.items@
    }
}

impl<T> WarmPool<T> {
    /// An empty pool.
    pub fn new() -> (r: Self)
        ensures
            r@ == Seq::<T>::empty(),
    {
        WarmPool { items: Vec::new() }
    }

    /// How many items are ready.
    pub fn count(&self) -> (r: usize)
        ensures
            r == self@.len(),
    {
        self.items.len()
    }

    /// Adds a batch of items, in order, after those already ready.
    pub fn add_batch(&mut self, batch: Vec<T>)
        ensures
            final(self)@ == old(self)@ + batch@,
    {
        let mut batch = batch;
        self.items.append(&mut batch);
    }

    /// The most recently added item, when more than one is ready; otherwise
    /// nothing, and the caller prepares a fresh item and a new batch.
    pub fn take(&mut self) -> (r: Option<T>)
        ensures
            old(self)@.len() > 1 ==> r == Some(old(self)@.last()) && final(self)@
                == old(self)@.drop_last(),
            old(self)@.len() <= 1 ==> r is None && final(self)@ == old(self)@,
    {
        if self.items.len() > 1 {
            self.items.pop()
        } else {
            None
        }
    }
}

/// An item added to the pool is the next one handed out while more than one
/// is ready, and handing it out leaves the pool as it was before.
pub proof fn lemma_take_undoes_add<T>(before: Seq<T>, item: T)
    requires
        before.len() >= 1,
    ensures
        (before + seq![item]).len() > 1,
        (before + seq![item]).last() == item,
        (before + seq![item]).drop_last() == before,
{
    assert((before + seq![item]).drop_last() =~= before);
}

} // verus!
