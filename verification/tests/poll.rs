use ksbd_bot::page_sender::PageSender;
use ksbd_bot::pages_state::PagesStateManager;
use ksbd_bot::reconcile::{check_new_page_and_send, PollStatus};
use ksbd_bot::subs_state::SubsStateManager;
use ksbd_bot::{BotState, GetPageError, KsbdPage, KsbdScraper, PageToSend, PagesState, SubsState};

fn page(idx: usize, url: &str, next: Option<&str>) -> KsbdPage {
    KsbdPage {
        idx,
        title: format!("title{}", idx),
        url: url.to_string(),
        imgs: vec![format!("img{}.png", idx)],
        text: format!("text{}", idx),
        next: next.map(|s| s.to_string()),
    }
}

struct ScriptedFetcher {
    pages: Vec<KsbdPage>,
    calls: Vec<(usize, String)>,
}

impl KsbdScraper for ScriptedFetcher {
    fn request_page(&mut self, idx: usize, url: &str) -> Result<KsbdPage, GetPageError> {
        self.calls.push((idx, url.to_string()));
        match self.pages.iter().find(|p| p.idx == idx && p.url == url) {
            Some(p) => Ok(p.clone()),
            None => Err(GetPageError::req_err(url, "not scripted".to_string())),
        }
    }
}

struct CountingStore {
    saved: Vec<String>,
}

impl PagesStateManager for CountingStore {
    fn load_pages_state(&mut self) -> PagesState {
        match self.saved.last() {
            Some(s) => PagesState::decode(s).unwrap(),
            None => PagesState::default(),
        }
    }

    fn save_pages_state(&mut self, state: &PagesState) {
        self.saved.push(state.encode());
    }
}

struct RecordingSender {
    sent: Vec<(i64, usize, bool)>,
}

impl PageSender for RecordingSender {
    fn send_page(&mut self, page: &PageToSend, to: i64) -> bool {
        self.sent.push((to, page.idx, page.is_new));
        true
    }
}

struct EmptySubs;

impl SubsStateManager for EmptySubs {
    fn load_subs_state(&mut self) -> SubsState {
        SubsState::default()
    }

    fn save_subs_state(&mut self, _state: &SubsState) {}
}

fn six_page_state() -> BotState {
    let mut pages = PagesState::default();
    for i in 0..6usize {
        pages.add_page(page(i, &format!("u{}", i), None));
    }
    let mut subscribers = SubsState::default();
    subscribers.add(10);
    subscribers.add(20);
    BotState { pages, subscribers }
}

#[test]
fn poll_discovers_two_pages_and_fans_out() {
    // tail is page 5 with no successor; the re-fetched tail now reports
    // one; the walk yields pages 6 and 7, page 7 having no successor
    let mut state = six_page_state();
    let mut fetcher = ScriptedFetcher {
        pages: vec![
            page(5, "u5", Some("u6")),
            page(6, "u6", Some("u7")),
            page(7, "u7", None),
        ],
        calls: Vec::new(),
    };
    let mut sender = RecordingSender { sent: Vec::new() };
    let mut store = CountingStore { saved: Vec::new() };
    let report = check_new_page_and_send(&mut state, &mut fetcher, &mut sender, &mut store);

    assert_eq!(report.status, PollStatus::CaughtUp);
    assert_eq!(state.pages.len(), 8);
    assert_eq!(state.pages.last().unwrap().idx, 7);
    assert_eq!(state.pages.by_idx(5).unwrap().next.as_deref(), Some("u6"));
    assert_eq!(state.pages.by_idx(6).unwrap().next.as_deref(), Some("u7"));
    assert_eq!(state.pages.by_idx(7).unwrap().next, None);

    // exactly k*m deliveries, each subscriber sees 6 then 7, marked fresh
    assert_eq!(sender.sent, vec![(10, 6, true), (10, 7, true), (20, 6, true), (20, 7, true)]);
    assert_eq!(report.deliveries, vec![(10, 0), (10, 1), (20, 0), (20, 1)]);

    // persistence ran once per appended page
    assert_eq!(store.saved.len(), 2);
    // and what was last persisted is the full eight-page chain
    let persisted = PagesState::decode(store.saved.last().unwrap()).unwrap();
    assert_eq!(persisted.len(), 8);
}

#[test]
fn poll_without_news_changes_nothing() {
    let mut state = six_page_state();
    let before = state.pages.encode();
    let mut fetcher = ScriptedFetcher {
        pages: vec![page(5, "u5", None)],
        calls: Vec::new(),
    };
    let mut sender = RecordingSender { sent: Vec::new() };
    let mut store = CountingStore { saved: Vec::new() };
    let report = check_new_page_and_send(&mut state, &mut fetcher, &mut sender, &mut store);

    assert_eq!(report.status, PollStatus::NoNews);
    assert_eq!(report.new_pages.len(), 0);
    assert_eq!(report.deliveries.len(), 0);
    assert_eq!(sender.sent.len(), 0);
    assert_eq!(store.saved.len(), 0);
    assert_eq!(state.pages.encode(), before);
    assert_eq!(state.subscribers.len(), 2);

    // a second run still changes nothing
    let report2 = check_new_page_and_send(&mut state, &mut fetcher, &mut sender, &mut store);
    assert_eq!(report2.status, PollStatus::NoNews);
    assert_eq!(state.pages.encode(), before);
    assert_eq!(sender.sent.len(), 0);
}

#[test]
fn poll_with_empty_chain_does_nothing() {
    let mut state = BotState { pages: PagesState::default(), subscribers: SubsState::default() };
    let mut fetcher = ScriptedFetcher { pages: Vec::new(), calls: Vec::new() };
    let mut sender = RecordingSender { sent: Vec::new() };
    let mut store = CountingStore { saved: Vec::new() };
    let report = check_new_page_and_send(&mut state, &mut fetcher, &mut sender, &mut store);
    assert_eq!(report.status, PollStatus::NoTail);
    assert_eq!(fetcher.calls.len(), 0);
    assert_eq!(sender.sent.len(), 0);
}

#[test]
fn poll_reports_tail_with_forward_link() {
    let mut state = six_page_state();
    // leave the tail with a dangling forward link: an invariant violation
    state.pages.add_page(page(6, "u6", Some("u7")));
    let mut fetcher = ScriptedFetcher { pages: Vec::new(), calls: Vec::new() };
    let mut sender = RecordingSender { sent: Vec::new() };
    let mut store = CountingStore { saved: Vec::new() };
    let report = check_new_page_and_send(&mut state, &mut fetcher, &mut sender, &mut store);
    assert_eq!(report.status, PollStatus::TailHasNext);
    assert_eq!(fetcher.calls.len(), 0);
    assert_eq!(sender.sent.len(), 0);
}

#[test]
fn poll_fetch_failure_aborts_cycle() {
    let mut state = six_page_state();
    let before = state.pages.encode();
    let mut fetcher = ScriptedFetcher { pages: Vec::new(), calls: Vec::new() };
    let mut sender = RecordingSender { sent: Vec::new() };
    let mut store = CountingStore { saved: Vec::new() };
    let report = check_new_page_and_send(&mut state, &mut fetcher, &mut sender, &mut store);
    match report.status {
        PollStatus::FetchFailed(GetPageError::RequestErr(url, _)) => assert_eq!(url, "u5"),
        other => panic!("unexpected status {:?}", other),
    }
    assert_eq!(state.pages.encode(), before);
    assert_eq!(sender.sent.len(), 0);
}

#[test]
fn walk_stops_at_first_failure_keeping_earlier_pages() {
    let mut fetcher = ScriptedFetcher {
        pages: vec![page(3, "u3", Some("u4")), page(4, "u4", Some("u5"))],
        calls: Vec::new(),
    };
    let pages = ksbd_bot::reconcile::pages_from(&mut fetcher, 3, "u3".to_string());
    // page 5 is not scripted: the walk ends silently after yielding 3 and 4
    assert_eq!(pages.len(), 2);
    assert_eq!(pages[0].idx, 3);
    assert_eq!(pages[1].idx, 4);
}

#[test]
fn startup_restores_and_loads_both_states() {
    let seed = "https://killsixbilliondemons.com/comic/kill-six-billion-demons-chapter-1/";
    let mut fetcher = ScriptedFetcher {
        pages: vec![page(0, seed, None)],
        calls: Vec::new(),
    };
    let mut pages_store = CountingStore { saved: Vec::new() };
    let mut subs_store = EmptySubs;
    let state = ksbd_bot::reconcile::init_bot_state(&mut fetcher, &mut pages_store, &mut subs_store);
    assert_eq!(state.pages.len(), 1);
    assert_eq!(state.subscribers.len(), 0);
}
