//! The one shared state object: the page chain and the subscriber set.

use crate::pages_state::PagesState;
use crate::subs_state::SubsState;
use vstd::prelude::*;

verus! {

/// The shared state that the request handlers and the background poll
/// task both work on.
pub struct BotState {
    pub pages: PagesState,
    pub subscribers: SubsState,
}

impl BotState {
    /// Both components satisfy their invariants.
    pub open spec fn wf(&self) -> bool {
        self.pages.wf() && self.subscribers.wf()
    }
}

} // verus!
