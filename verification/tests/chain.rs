use ksbd_bot::{GetPageError, KsbdPage, KsbdScraper, PagesState};
use ksbd_bot::pages_state::PagesStateManager;

fn page(idx: usize, url: &str, next: Option<&str>) -> KsbdPage {
    KsbdPage {
        idx,
        title: format!("title{}", idx),
        url: url.to_string(),
        imgs: vec![format!("img{}.png", idx)],
        text: format!("text{}", idx),
        next: next.map(|s| s.to_string()),
    }
}

struct ScriptedFetcher {
    pages: Vec<KsbdPage>,
    calls: Vec<(usize, String)>,
}

impl KsbdScraper for ScriptedFetcher {
    fn request_page(&mut self, idx: usize, url: &str) -> Result<KsbdPage, GetPageError> {
        self.calls.push((idx, url.to_string()));
        match self.pages.iter().find(|p| p.idx == idx && p.url == url) {
            Some(p) => Ok(p.clone()),
            None => Err(GetPageError::req_err(url, "not scripted".to_string())),
        }
    }
}

struct CountingStore {
    saved: Vec<String>,
}

impl PagesStateManager for CountingStore {
    fn load_pages_state(&mut self) -> PagesState {
        PagesState::default()
    }

    fn save_pages_state(&mut self, state: &PagesState) {
        self.saved.push(state.encode());
    }
}

#[test]
fn empty_chain_starts_at_seed() {
    let chain = PagesState::default();
    let (idx, url) = chain.start_from().expect("empty chain must resume at the seed");
    assert_eq!(idx, 0);
    assert_eq!(
        url,
        "https://killsixbilliondemons.com/comic/kill-six-billion-demons-chapter-1/"
    );
}

#[test]
fn caught_up_chain_has_no_resume_point() {
    let mut chain = PagesState::default();
    chain.add_page(page(0, "a0", None));
    assert!(chain.start_from().is_none());
}

#[test]
fn chain_with_forward_link_resumes_past_tail() {
    let mut chain = PagesState::default();
    chain.add_page(page(0, "a0", Some("a1")));
    let (idx, url) = chain.start_from().expect("a tail with a forward link must resume");
    assert_eq!(idx, 1);
    assert_eq!(url, "a1");
}

#[test]
fn append_repairs_previous_tail_link() {
    let mut chain = PagesState::default();
    // the fetched record of page 0 knows nothing of a successor yet
    chain.add_page(page(0, "a0", None));
    chain.add_page(page(1, "a1", Some("a2")));
    chain.add_page(page(2, "a2", None));
    // every page except the last now points at its successor's address
    assert_eq!(chain.by_idx(0).unwrap().next.as_deref(), Some("a1"));
    assert_eq!(chain.by_idx(1).unwrap().next.as_deref(), Some("a2"));
    assert_eq!(chain.by_idx(2).unwrap().next, None);
}

#[test]
fn lookups_by_position() {
    let mut chain = PagesState::default();
    chain.add_page(page(0, "a0", None));
    chain.add_page(page(1, "a1", None));
    assert_eq!(chain.first().unwrap().idx, 0);
    assert_eq!(chain.last().unwrap().idx, 1);
    assert_eq!(chain.by_idx(1).unwrap().url, "a1");
    assert!(chain.by_idx(2).is_none());
}

#[test]
fn add_pages_appends_in_order() {
    let mut chain = PagesState::default();
    chain.add_pages(vec![
        page(0, "a0", None),
        page(1, "a1", None),
        page(2, "a2", None),
    ]);
    assert_eq!(chain.len(), 3);
    assert_eq!(chain.by_idx(0).unwrap().next.as_deref(), Some("a1"));
    assert_eq!(chain.by_idx(1).unwrap().next.as_deref(), Some("a2"));
}

#[test]
fn first_fetch_from_seed() {
    // an empty chain, one page on the remote source: after catch-up the
    // chain holds page 0, whose record reports no successor
    let seed = "https://killsixbilliondemons.com/comic/kill-six-billion-demons-chapter-1/";
    let mut fetcher = ScriptedFetcher {
        pages: vec![page(0, seed, None)],
        calls: Vec::new(),
    };
    let mut store = CountingStore { saved: Vec::new() };
    let mut chain = PagesState::default();
    ksbd_bot::reconcile::restore_pages_from(&mut chain, &mut fetcher, &mut store);
    assert_eq!(chain.len(), 1);
    assert_eq!(chain.first().unwrap().idx, 0);
    assert_eq!(chain.last().unwrap().idx, 0);
    assert!(chain.by_idx(1).is_none());
    assert_eq!(store.saved.len(), 1);
}

#[test]
fn catch_up_persists_after_every_append() {
    let seed = "https://killsixbilliondemons.com/comic/kill-six-billion-demons-chapter-1/";
    let mut fetcher = ScriptedFetcher {
        pages: vec![
            page(0, seed, Some("u1")),
            page(1, "u1", Some("u2")),
            page(2, "u2", None),
        ],
        calls: Vec::new(),
    };
    let mut store = CountingStore { saved: Vec::new() };
    let mut chain = PagesState::default();
    ksbd_bot::reconcile::restore_pages_from(&mut chain, &mut fetcher, &mut store);
    assert_eq!(chain.len(), 3);
    // one save per appended page
    assert_eq!(store.saved.len(), 3);
    // the fetches touched exactly indices 0, 1, 2, in order
    let idxs: Vec<usize> = fetcher.calls.iter().map(|c| c.0).collect();
    assert_eq!(idxs, vec![0, 1, 2]);
}

#[test]
fn crash_and_restart_never_refetches() {
    // run a catch-up that stops after page 1 because fetching page 2 fails
    let seed = "https://killsixbilliondemons.com/comic/kill-six-billion-demons-chapter-1/";
    let mut fetcher = ScriptedFetcher {
        pages: vec![page(0, seed, Some("u1")), page(1, "u1", Some("u2"))],
        calls: Vec::new(),
    };
    let mut store = CountingStore { saved: Vec::new() };
    let mut chain = PagesState::default();
    ksbd_bot::reconcile::restore_pages_from(&mut chain, &mut fetcher, &mut store);
    assert_eq!(chain.len(), 2);

    // reload what was last persisted and resume: the resume point is page
    // 2, and the resumed walk re-fetches nothing below it
    let reloaded = PagesState::decode(&store.saved.last().unwrap()).unwrap();
    let (idx, url) = reloaded.start_from().unwrap();
    assert_eq!(idx, 2);
    assert_eq!(url, "u2");
    let mut fetcher2 = ScriptedFetcher {
        pages: vec![
            page(0, seed, Some("u1")),
            page(1, "u1", Some("u2")),
            page(2, "u2", None),
        ],
        calls: Vec::new(),
    };
    let mut chain2 = reloaded;
    ksbd_bot::reconcile::restore_pages_from(&mut chain2, &mut fetcher2, &mut store);
    assert_eq!(chain2.len(), 3);
    let idxs: Vec<usize> = fetcher2.calls.iter().map(|c| c.0).collect();
    assert_eq!(idxs, vec![2]);
}

#[test]
fn chain_codec_round_trip() {
    let mut chain = PagesState::default();
    chain.add_page(page(0, "a0", None));
    chain.add_page(page(1, "a1", None));
    let text = chain.encode();
    assert_eq!(
        text,
        "title0\ta0\timg0.png\ttext0\ta1\ntitle1\ta1\timg1.png\ttext1\tNO"
    );
    let back = PagesState::decode(&text).unwrap();
    assert_eq!(back.len(), 2);
    assert_eq!(back.by_idx(0).unwrap(), chain.by_idx(0).unwrap());
    assert_eq!(back.by_idx(1).unwrap(), chain.by_idx(1).unwrap());
    assert!(back.start_from().is_none());
}

#[test]
fn chain_decode_multiple_images() {
    let line = "t\tu\ta.png|b.png\tbody\tNO";
    let chain = PagesState::decode(line).unwrap();
    assert_eq!(chain.len(), 1);
    assert_eq!(chain.first().unwrap().imgs, vec!["a.png", "b.png"]);
}

#[test]
fn chain_decode_rejects_short_record() {
    assert!(PagesState::decode("only\tfour\tfields\there").is_err());
    assert!(PagesState::decode("").is_err());
}
