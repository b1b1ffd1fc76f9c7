//! The commands the chat front end accepts.

use vstd::prelude::*;

verus! {

/// One user command: subscribe and start, show the command help, fetch
/// the first or the newest page, or open the jump-to menu.
#[derive(Debug, Clone, Copy, PartialEq, Eq, Structural)]
pub enum Command {
    Start,
    Help,
    First,
    Last,
    Jump,
}

} // verus!
