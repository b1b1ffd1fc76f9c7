//! Incremental crawl-and-reconciliation engine for a strictly ordered,
//! forward-linked sequence of comic pages: an append-only page chain, a
//! resumable forward walker, and a poll-and-fan-out loop that detects newly
//! published pages and delivers them to subscribers, with persistence hooks
//! between steps.

use vstd::prelude::*;

pub mod bot_cmd;
pub mod bot_flow;
pub mod bot_state;
pub mod ksbd_page;
pub mod ksbd_page_error;
pub mod page_sender;
pub mod page_to_send;
pub mod pages_state;
pub mod reconcile;
pub mod scraper_page;
pub mod subs_state;
pub mod text;

pub use bot_cmd::Command;
pub use bot_state::BotState;
pub use ksbd_page::KsbdPage;
pub use ksbd_page_error::GetPageError;
pub use page_to_send::PageToSend;
pub use pages_state::PagesState;
pub use scraper_page::KsbdScraper;
pub use subs_state::SubsState;
