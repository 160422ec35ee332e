//! The bot assembled from its two halves: the deduplicating feed
//! consumer and the command-handling communicator. The outer shell reads
//! the persisted state, builds both halves, and runs each on its own
//! schedule; the halves themselves live here, verified.

use vstd::prelude::*;
use crate::communicator::Communicator;
use crate::derpiquery::Derpiquery;

verus! {

/// The whole bot: the feed side and the command side.
pub struct Bot {
    pub derpiquery: Derpiquery,
    pub communicator: Communicator,
}

impl Bot {
    /// Both halves keep their invariants.
    pub open spec fn wf(&self) -> bool {
        self.derpiquery.wf() && self.communicator.wf()
    }

    /// Assembles the bot from its reloaded halves.
    pub fn new(derpiquery: Derpiquery, communicator: Communicator) -> (b: Bot)
        requires
            derpiquery.wf(),
            communicator.wf(),
        ensures
            b.wf(),
            b.derpiquery.seen_view() == derpiquery.seen_view(),
            b.communicator@ == communicator@,
    {
        Bot { derpiquery, communicator }
    }
}

} // verus!
