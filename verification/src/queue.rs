//! The handoff between the two polling loops: the feed side queues each
//! batch of fresh images, the command side takes them one at a time
//! without blocking. A batch queued while nobody is looking waits here;
//! none is ever dropped.

use vstd::prelude::*;
use crate::images::{ImageResponse, ImageView, imgs_view};

verus! {

/// The queued batches, oldest first.
pub struct BatchQueue {
    batches: Vec<Vec<ImageResponse>>,
}

impl View for BatchQueue {
    type V = Seq<Seq<ImageView>>;

    closed spec fn view(&self) -> Seq<Seq<ImageView>> {
        Seq::new(self.batches.len() as nat, |i: int| imgs_view(self.batches[i]@))
    }
}

impl BatchQueue {
    /// An empty queue.
    pub fn new() -> (q: BatchQueue)
        ensures
            q@ == Seq::<Seq<ImageView>>::empty(),
    {
        let q = BatchQueue { batches: Vec::new() };
        proof {
            assert(q@ =~= Seq::<Seq<ImageView>>::empty());
        }
        q
    }

    /// How many batches wait.
    pub fn len(&self) -> (n: usize)
        ensures
            n == self@.len(),
    {
        self.batches.len()
    }

    /// Queues one batch at the end; nothing already queued moves.
    pub fn push_batch(&mut self, batch: Vec<ImageResponse>)
        ensures
            final(self)@ == old(self)@.push(imgs_view(batch@)),
    {
        let ghost prev = self@;
        let ghost bv = imgs_view(batch@);
        self.batches.push(batch);
        proof {
            assert(self@ =~= prev.push(bv));
        }
    }

    /// Takes the oldest batch, or nothing when the queue is empty: each
    /// queued batch is handed out exactly once, in queue order.
    pub fn try_take(&mut self) -> (r: Option<Vec<ImageResponse>>)
        ensures
            old(self)@.len() == 0 ==> r is None && final(self)@ == old(self)@,
            old(self)@.len() > 0 ==> r is Some && imgs_view(r->0@) == old(self)@[0]
                && final(self)@ == old(self)@.drop_first(),
    {
        if self.batches.len() == 0 {
            None
        } else {
            let ghost prev = self@;
            let b = self.batches.remove(0);
            proof {
                assert(self@ =~= prev.drop_first());
            }
            Some(b)
        }
    }
}

} // verus!
