//! The resumable forward walk and the poll-and-fan-out cycle.
//!
//! The walk repeatedly fetches pages starting from a cursor, yielding each
//! page and advancing to its forward address, until a page reports no
//! successor or a fetch fails. The startup catch-up drives the walk and
//! persists after every single append, so a crash loses at most the one
//! in-flight page. The periodic poll re-fetches the tail to ask the remote
//! source whether a successor has appeared, walks the extension, delivers
//! every new page to every subscriber exactly once, and only then appends
//! and persists.

use crate::bot_state::BotState;
use crate::ksbd_page::{no_delims, page_views, KsbdPage, PageView};
use crate::ksbd_page_error::GetPageError;
use crate::page_sender::PageSender;
use crate::page_to_send::PageToSend;
use crate::pages_state::{
    append_page, append_pages, lemma_append_preserves_indexed, lemma_append_preserves_links,
    PagesState, PagesStateManager,
};
use crate::scraper_page::KsbdScraper;
use crate::subs_state::{sub_ids, SubsStateManager};
use vstd::prelude::*;

verus! {

/// What any forward walk yields: pages with consecutive indices starting
/// at the cursor's, the first at the cursor's address, each non-last page
/// pointing at its successor, and every page fit for storage (delimiters
/// escaped, at least one image).
pub open spec fn walk_segment(s: Seq<PageView>, i0: int, u0: Seq<char>) -> bool {
    &&& forall|k: int| 0 <= k < s.len() ==> (#[trigger] s[k]).idx == i0 + k
    &&& (s.len() > 0 ==> s[0].url == u0)
    &&& forall|k: int| 0 <= k < s.len() - 1 ==> (#[trigger] s[k]).next == Some(s[k + 1].url)
    &&& forall|k: int|
        0 <= k < s.len() ==> no_delims((#[trigger] s[k]).title) && no_delims(s[k].text)
            && s[k].imgs.len() > 0
}

/// Walks forward from `(start_idx, start_url)`, collecting each fetched
/// page and following its forward address, until a page reports no
/// successor or a fetch fails. A fetch failure ends the walk silently: the
/// pages already yielded stand.
pub fn pages_from<S: KsbdScraper>(scraper: &mut S, start_idx: usize, start_url: String) -> (pages:
    Vec<KsbdPage>)
    ensures
        walk_segment(page_views(pages@), start_idx as int, start_url@),
{
    let ghost u0 = start_url@;
    let mut pages: Vec<KsbdPage> = Vec::new();
    let mut idx: usize = start_idx;
    let mut url: String = start_url;
    let mut more = true;
    proof {
        assert(page_views(pages@) =~= Seq::<PageView>::empty());
    }
    while more
        invariant
            walk_segment(page_views(pages@), start_idx as int, u0),
            start_idx <= idx,
            more ==> idx as int == start_idx + page_views(pages@).len(),
            more && pages@.len() > 0 ==> page_views(pages@).last().next == Some(url@),
            more && pages@.len() == 0 ==> url@ == u0,
        decreases usize::MAX - idx, (if more {
            1int
        } else {
            0int
        }),
    {
        let ghost vs = page_views(pages@);
        match scraper.request_page(idx, url.as_str()) {
            Err(_) => {
                more = false;
            },
            Ok(page) => {
                let nxt: Option<String> = match &page.next {
                    Some(u) => Some(u.clone()),
                    None => None,
                };
                let ghost pv = page@;
                pages.push(page);
                proof {
                    assert(page_views(pages@) =~= vs.push(pv));
                    let nvs = vs.push(pv);
                    assert forall|k: int| 0 <= k < nvs.len() - 1 implies (#[trigger] nvs[k]).next
                        == Some(nvs[k + 1].url) by {
                        if k < vs.len() - 1 {
                            assert(nvs[k] == vs[k]);
                            assert(nvs[k + 1] == vs[k + 1]);
                        } else {
                            assert(nvs[k] == vs.last());
                            assert(nvs[k + 1] == pv);
                        }
                    }
                }
                match nxt {
                    Some(u2) => {
                        if idx < usize::MAX {
                            idx = idx + 1;
                            url = u2;
                            proof {
                                assert(page_views(pages@).last() == pv);
                            }
                        } else {
                            more = false;
                        }
                    },
                    None => {
                        more = false;
                    },
                }
            },
        }
    }
    pages
}

/// Field-wise equality of two page records except the forward link.
pub open spec fn same_but_next(a: PageView, b: PageView) -> bool {
    a.idx == b.idx && a.title == b.title && a.url == b.url && a.imgs == b.imgs && a.text == b.text
}

/// Startup catch-up: resumes the walk from the persisted chain's resume
/// cursor and, for each page yielded, immediately appends it and persists
/// the chain — never buffering the walk — so a crash loses at most the one
/// in-flight page. Earlier pages are never re-fetched: every fetch of this
/// walk happens at the chain's current length. No delivery happens here;
/// pages found at startup are backlog, not news.
pub fn restore_pages_from<S: KsbdScraper, M: PagesStateManager>(
    state: &mut PagesState,
    scraper: &mut S,
    store: &mut M,
)
    requires
        old(state).wf(),
    ensures
        final (state).wf(),
        final (state)@.len() >= old(state)@.len(),
        forall|k: int| 0 <= k < old(state)@.len() - 1 ==> final (state)@[k] == old(state)@[k],
        old(state)@.len() > 0 ==> same_but_next(
            final (state)@[old(state)@.len() - 1],
            old(state)@[old(state)@.len() - 1],
        ),
        crate::pages_state::resume_cursor(old(state)@) is None ==> final (state)@ == old(
            state,
        )@,
        final (state)@.len() > old(state)@.len() ==> (crate::pages_state::resume_cursor(
            old(state)@,
        ) matches Some(cur) && final (state)@[cur.0].url == cur.1),
{
    let ghost orig = old(state)@;
    let c = state.start_from();
    let mut idx: usize;
    let mut url: String;
    let mut more: bool;
    match c {
        None => {
            return ;
        },
        Some((i, u)) => {
            idx = i;
            url = u;
            more = true;
        },
    }
    let ghost cur = (idx as int, url@);
    proof {
        assert(crate::pages_state::resume_cursor(orig) == Some(cur));
        assert(cur.0 == orig.len() as int);
    }
    while more
        invariant
            state.wf(),
            orig == old(state)@,
            state@.len() >= orig.len(),
            forall|k: int| 0 <= k < orig.len() - 1 ==> state@[k] == orig[k],
            orig.len() > 0 ==> same_but_next(state@[orig.len() - 1], orig[orig.len() - 1]),
            more ==> idx as int == state@.len(),
            crate::pages_state::resume_cursor(orig) == Some(cur),
            cur.0 == orig.len() as int,
            more && state@.len() == orig.len() ==> url@ == cur.1,
            state@.len() > orig.len() ==> state@[cur.0].url == cur.1,
        decreases usize::MAX - idx, (if more {
            1int
        } else {
            0int
        }),
    {
        match scraper.request_page(idx, url.as_str()) {
            Err(_) => {
                more = false;
            },
            Ok(page) => {
                let nxt: Option<String> = match &page.next {
                    Some(u) => Some(u.clone()),
                    None => None,
                };
                let ghost pre = state@;
                let ghost pv = page@;
                state.add_page(page);
                store.save_pages_state(state);
                proof {
                    lemma_append_preserves_links(pre, pv);
                    lemma_append_preserves_indexed(pre, pv);
                    assert forall|k: int| 0 <= k < orig.len() - 1 implies state@[k] == orig[k] by {
                        assert(state@[k] == pre[k]);
                    }
                    if orig.len() > 0 {
                        if pre.len() == orig.len() {
                            assert(state@[orig.len() - 1] == crate::pages_state::patch_next(
                                pre.last(),
                                pv.url,
                            ));
                        } else {
                            assert(state@[orig.len() - 1] == pre[orig.len() - 1]);
                        }
                    }
                    if pre.len() == orig.len() {
                        // the first appended page sits at the resume cursor,
                        // fetched from its address
                        assert(state@[cur.0] == pv);
                        assert(pv.url == cur.1);
                    } else {
                        // later appends leave the page at the cursor in
                        // place, or only rewrite its forward link
                        if cur.0 == pre.len() - 1 {
                            assert(state@[cur.0].url == pre[cur.0].url);
                        } else {
                            assert(state@[cur.0] == pre[cur.0]);
                        }
                    }
                }
                match nxt {
                    Some(u2) => {
                        if idx < usize::MAX {
                            idx = idx + 1;
                            url = u2;
                        } else {
                            more = false;
                        }
                    },
                    None => {
                        more = false;
                    },
                }
            },
        }
    }
}

/// No chat identity occurs twice.
pub open spec fn distinct_i64s(s: Seq<i64>) -> bool {
    forall|i: int, j: int| 0 <= i < j < s.len() ==> s[i] != s[j]
}

/// The delivery attempts one subscriber receives: every page position,
/// in ascending order.
pub open spec fn sub_block(c: i64, k: usize) -> Seq<(i64, usize)> {
    Seq::new(k as nat, |j: int| (c, j as usize))
}

/// The whole delivery plan of one poll cycle: for each subscriber in
/// order, every one of the `k` new pages in ascending position order.
pub open spec fn fan_out(subs: Seq<i64>, k: usize) -> Seq<(i64, usize)>
    decreases subs.len(),
{
    if subs.len() == 0 {
        Seq::empty()
    } else {
        fan_out(subs.drop_last(), k) + sub_block(subs.last(), k)
    }
}

/// Law (exactly-once fan-out): for `k` new pages and `m` subscribers with
/// distinct identities, the delivery plan holds exactly `m * k` attempts;
/// each attempt names a registered subscriber; each (subscriber, page)
/// pair occurs exactly once; and for any one subscriber the page positions
/// appear in ascending order.
pub proof fn lemma_fan_out_exactly_once(subs: Seq<i64>, k: usize)
    requires
        distinct_i64s(subs),
    ensures
        fan_out(subs, k).len() == subs.len() * k,
        forall|a: int|
            0 <= a < fan_out(subs, k).len() ==> subs.contains(#[trigger] fan_out(subs, k)[a].0)
                && fan_out(subs, k)[a].1 < k,
        forall|c: i64, j: usize|
            #[trigger] fan_out(subs, k).contains((c, j)) <==> (subs.contains(c) && j < k),
        forall|a: int, b: int|
            0 <= a < b < fan_out(subs, k).len() ==> fan_out(subs, k)[a] != fan_out(subs, k)[b],
        forall|a: int, b: int|
            0 <= a < b < fan_out(subs, k).len() && (#[trigger] fan_out(subs, k)[a]).0 == (
            #[trigger] fan_out(subs, k)[b]).0 ==> fan_out(subs, k)[a].1 < fan_out(subs, k)[b].1,
    decreases subs.len(),
{
    let r = fan_out(subs, k);
    if subs.len() == 0 {
        assert forall|c: i64, j: usize| #[trigger] r.contains((c, j)) implies (subs.contains(c)
            && j < k) by {
            let a = choose|a: int| 0 <= a < r.len() && r[a] == (c, j);
        }
        assert(forall|c: i64| !subs.contains(c));
    } else {
        let m = subs.len();
        let d = subs.drop_last();
        let f0 = fan_out(d, k);
        let blk = sub_block(subs.last(), k);
        assert(distinct_i64s(d)) by {
            assert(forall|i: int, j: int| 0 <= i < j < d.len() ==> d[i] == subs[i] && d[j] == subs[j]);
        }
        lemma_fan_out_exactly_once(d, k);
        assert(r.len() == (m - 1) * k + k);
        assert((m - 1) * k + k == m * k) by (nonlinear_arith);
        assert(forall|i: int| 0 <= i < d.len() ==> d[i] == subs[i]);
        assert forall|a: int| 0 <= a < r.len() implies subs.contains(#[trigger] r[a].0) && r[a].1
            < k by {
            if a < f0.len() {
                assert(r[a] == f0[a]);
                assert(d.contains(f0[a].0));
                let i = choose|i: int| 0 <= i < d.len() && d[i] == f0[a].0;
                assert(subs[i] == f0[a].0);
            } else {
                assert(r[a] == blk[a - f0.len()]);
                assert(r[a].0 == subs.last());
                assert(subs[m - 1] == subs.last());
            }
        }
        assert forall|c: i64, j: usize| #[trigger] r.contains((c, j)) implies (subs.contains(c)
            && j < k) by {
            let a = choose|a: int| 0 <= a < r.len() && r[a] == (c, j);
            assert(subs.contains(r[a].0) && r[a].1 < k);
        }
        assert forall|c: i64, j: usize| subs.contains(c) && j < k implies #[trigger] r.contains(
            (c, j),
        ) by {
            let i = choose|i: int| 0 <= i < subs.len() && subs[i] == c;
            if i == m - 1 {
                assert(blk[j as int] == (c, j));
                assert(r[f0.len() + j] == (c, j));
            } else {
                assert(d[i] == c);
                assert(d.contains(c));
                assert(f0.contains((c, j)));
                let a = choose|a: int| 0 <= a < f0.len() && f0[a] == (c, j);
                assert(r[a] == (c, j));
            }
        }
        assert forall|a: int, b: int| 0 <= a < b < r.len() implies r[a] != r[b] by {
            if b < f0.len() {
                assert(r[a] == f0[a] && r[b] == f0[b]);
            } else if a >= f0.len() {
                assert(r[a] == blk[a - f0.len()] && r[b] == blk[b - f0.len()]);
            } else {
                assert(r[a] == f0[a] && r[b] == blk[b - f0.len()]);
                assert(d.contains(f0[a].0));
                let i = choose|i: int| 0 <= i < d.len() && d[i] == f0[a].0;
                assert(subs[i] == f0[a].0);
                assert(r[b].0 == subs[m - 1]);
            }
        }
        assert forall|a: int, b: int|
            0 <= a < b < r.len() && (#[trigger] r[a]).0 == (#[trigger] r[b]).0 implies r[a].1
            < r[b].1 by {
            if b < f0.len() {
                assert(r[a] == f0[a] && r[b] == f0[b]);
            } else if a >= f0.len() {
                assert(r[a] == blk[a - f0.len()] && r[b] == blk[b - f0.len()]);
            } else {
                assert(r[a] == f0[a] && r[b] == blk[b - f0.len()]);
                assert(d.contains(f0[a].0));
                let i = choose|i: int| 0 <= i < d.len() && d[i] == f0[a].0;
                assert(subs[i] == f0[a].0);
                assert(r[b].0 == subs[m - 1]);
            }
        }
    }
}

/// Appending a batch one page at a time is appending the batch.
pub proof fn lemma_append_pages_snoc(s: Seq<PageView>, ps: Seq<PageView>, j: int)
    requires
        0 <= j < ps.len(),
    ensures
        append_pages(s, ps.take(j + 1)) == append_page(append_pages(s, ps.take(j)), ps[j]),
    decreases j,
{
    if j == 0 {
        assert(ps.take(0) =~= Seq::<PageView>::empty());
        let t1 = ps.take(1);
        assert(t1[0] == ps[0]);
        assert(t1.drop_first() =~= Seq::<PageView>::empty());
        assert(append_pages(s, t1) == append_pages(append_page(s, t1[0]), t1.drop_first()));
        assert(append_pages(append_page(s, ps[0]), Seq::<PageView>::empty()) == append_page(
            s,
            ps[0],
        ));
        assert(append_pages(s, ps.take(0)) == s);
    } else {
        let t1 = ps.take(j + 1);
        let t0 = ps.take(j);
        let d = ps.drop_first();
        let s1 = append_page(s, ps[0]);
        assert(t1[0] == ps[0]);
        assert(t0[0] == ps[0]);
        assert(t1.drop_first() =~= d.take(j));
        assert(t0.drop_first() =~= d.take(j - 1));
        assert(append_pages(s, t1) == append_pages(s1, t1.drop_first()));
        assert(append_pages(s, t0) == append_pages(s1, t0.drop_first()));
        lemma_append_pages_snoc(s1, d, j - 1);
        assert(d[j - 1] == ps[j]);
        assert(append_pages(s1, d.take(j)) == append_page(append_pages(s1, d.take(j - 1)), ps[j]));
    }
}

/// How one poll cycle ended.
#[derive(Debug, PartialEq, Eq)]
pub enum PollStatus {
    /// The chain is empty: there is no tail to watch.
    NoTail,
    /// The tail unexpectedly already has a forward link: an invariant
    /// violation is reported and nothing is done.
    TailHasNext,
    /// Re-fetching the tail failed; nothing is mutated this cycle.
    FetchFailed(GetPageError),
    /// The re-fetched tail still reports no successor; nothing is mutated
    /// and nobody is notified.
    NoNews,
    /// A successor appeared: the extension was walked, delivered, appended
    /// and persisted.
    CaughtUp,
}

/// What one poll cycle did: the pages discovered, the delivery attempts
/// made (in order), and the successor address the re-fetched tail
/// reported, if any.
pub struct PollReport {
    pub status: PollStatus,
    pub new_pages: Vec<KsbdPage>,
    pub deliveries: Vec<(i64, usize)>,
    pub next_url: Option<String>,
}

/// One cycle of the periodic poll. Reads the tail: with no tail, or a
/// tail that unexpectedly already has a forward link, nothing happens.
/// Otherwise the tail page itself is re-fetched, because the remote
/// source alone decides whether new content exists. If the re-fetched
/// tail reports a successor, the extension is walked to completion, every
/// new page is delivered to every subscriber in chain order exactly once
/// (one `send_page` call per entry of the returned delivery list), and
/// only after all deliveries are attempted are the new pages appended —
/// each one persisted as soon as it is appended. If the tail still has no
/// successor, the cycle mutates nothing and delivers nothing.
pub fn check_new_page_and_send<S: KsbdScraper, P: PageSender, M: PagesStateManager>(
    state: &mut BotState,
    scraper: &mut S,
    sender: &mut P,
    store: &mut M,
) -> (r: PollReport)
    requires
        old(state).wf(),
    ensures
        final (state).wf(),
        final (state).subscribers@ == old(state).subscribers@,
        final (state).pages@ == append_pages(old(state).pages@, page_views(r.new_pages@)),
        !(r.status is CaughtUp) ==> r.new_pages@.len() == 0 && r.deliveries@.len() == 0 && final (
        state).pages@ == old(state).pages@,
        (r.status is NoTail) <==> old(state).pages@.len() == 0,
        r.status is TailHasNext ==> old(state).pages@.len() > 0 && old(
            state,
        ).pages@.last().next is Some,
        r.status is FetchFailed || r.status is NoNews || r.status is CaughtUp ==> old(
            state,
        ).pages@.len() > 0 && old(state).pages@.last().next is None,
        r.status is CaughtUp ==> r.deliveries@ == fan_out(
            sub_ids(old(state).subscribers@),
            r.new_pages@.len() as usize,
        ),
        r.status is CaughtUp ==> match r.next_url {
            Some(u) => walk_segment(
                page_views(r.new_pages@),
                old(state).pages@.len() as int,
                u@,
            ),
            None => false,
        },
{
    let ghost orig_pages = state.pages@;
    let l = state.pages.len();
    let has_tail: bool;
    let tail_has_next: bool;
    let mut tidx: usize = 0;
    let mut turl: String = String::new();
    match state.pages.last() {
        None => {
            has_tail = false;
            tail_has_next = false;
        },
        Some(p) => {
            has_tail = true;
            tail_has_next = p.next.is_some();
            tidx = p.idx;
            turl = p.url.clone();
            proof {
                assert(p@ == state.pages@.last());
                assert(state.pages@[state.pages@.len() - 1].idx == state.pages@.len() - 1);
                assert(tail_has_next == (state.pages@.last().next is Some));
            }
        },
    }
    if !has_tail {
        let r = PollReport {
            status: PollStatus::NoTail,
            new_pages: Vec::new(),
            deliveries: Vec::new(),
            next_url: None,
        };
        proof {
            assert(page_views(r.new_pages@) =~= Seq::<PageView>::empty());
        }
        return r;
    }
    if tail_has_next {
        let r = PollReport {
            status: PollStatus::TailHasNext,
            new_pages: Vec::new(),
            deliveries: Vec::new(),
            next_url: None,
        };
        proof {
            assert(page_views(r.new_pages@) =~= Seq::<PageView>::empty());
        }
        return r;
    }
    proof {
        assert(tidx as int == l - 1);
    }
    match scraper.request_page(tidx, turl.as_str()) {
        Err(e) => {
            let r = PollReport {
                status: PollStatus::FetchFailed(e),
                new_pages: Vec::new(),
                deliveries: Vec::new(),
                next_url: None,
            };
            proof {
                assert(page_views(r.new_pages@) =~= Seq::<PageView>::empty());
            }
            return r;
        },
        Ok(refetched) => {
            match refetched.next {
                None => {
                    let r = PollReport {
                        status: PollStatus::NoNews,
                        new_pages: Vec::new(),
                        deliveries: Vec::new(),
                        next_url: None,
                    };
                    proof {
                        assert(page_views(r.new_pages@) =~= Seq::<PageView>::empty());
                    }
                    return r;
                },
                Some(new_url) => {
                    let new_pages = pages_from(scraper, tidx + 1, new_url.clone());
                    let ghost nv = page_views(new_pages@);
                    let kk = new_pages.len();
                    let ids = state.subscribers.chat_ids();
                    let m = ids.len();
                    let mut deliveries: Vec<(i64, usize)> = Vec::new();
                    let mut si: usize = 0;
                    proof {
                        assert(ids@.take(0) =~= Seq::<i64>::empty());
                        assert(deliveries@ =~= fan_out(ids@.take(0), kk));
                    }
                    while si < m
                        invariant
                            si <= m,
                            m == ids@.len(),
                            kk == new_pages@.len(),
                            nv == page_views(new_pages@),
                            walk_segment(nv, tidx + 1 as int, new_url@),
                            deliveries@ == fan_out(ids@.take(si as int), kk),
                        decreases m - si,
                    {
                        let mut pj: usize = 0;
                        let ghost base = deliveries@;
                        while pj < kk
                            invariant
                                pj <= kk,
                                si < m,
                                m == ids@.len(),
                                kk == new_pages@.len(),
                                nv == page_views(new_pages@),
                                walk_segment(nv, tidx + 1 as int, new_url@),
                                base == fan_out(ids@.take(si as int), kk),
                                deliveries@ == base + Seq::new(
                                    pj as nat,
                                    |j: int| (ids@[si as int], j as usize),
                                ),
                            decreases kk - pj,
                        {
                            let copy = new_pages[pj].duplicate();
                            proof {
                                assert(nv[pj as int] == copy@);
                            }
                            let pts = PageToSend::fresh_page(copy);
                            let _delivered = sender.send_page(&pts, ids[si]);
                            deliveries.push((ids[si], pj));
                            pj = pj + 1;
                            proof {
                                assert(deliveries@ =~= base + Seq::new(
                                    pj as nat,
                                    |j: int| (ids@[si as int], j as usize),
                                ));
                            }
                        }
                        si = si + 1;
                        proof {
                            let t = ids@.take(si as int);
                            assert(t.drop_last() =~= ids@.take(si - 1));
                            assert(t.last() == ids@[si - 1]);
                            assert(Seq::new(kk as nat, |j: int| (ids@[si - 1], j as usize))
                                =~= sub_block(ids@[si - 1], kk));
                            assert(deliveries@ =~= fan_out(ids@.take(si - 1), kk) + sub_block(
                                t.last(),
                                kk,
                            ));
                        }
                    }
                    proof {
                        assert(ids@.take(m as int) =~= ids@);
                    }

                    let mut pj: usize = 0;
                    proof {
                        assert(nv.take(0) =~= Seq::<PageView>::empty());
                        assert(append_pages(orig_pages, nv.take(0)) == orig_pages);
                    }
                    while pj < kk
                        invariant
                            pj <= kk,
                            kk == new_pages@.len(),
                            nv == page_views(new_pages@),
                            walk_segment(nv, tidx + 1 as int, new_url@),
                            tidx as int == orig_pages.len() - 1,
                            orig_pages == old(state).pages@,
                            state.subscribers@ == old(state).subscribers@,
                            state.subscribers.wf(),
                            state.pages.wf(),
                            state.pages@ == append_pages(orig_pages, nv.take(pj as int)),
                            state.pages@.len() == orig_pages.len() + pj,
                        decreases kk - pj,
                    {
                        let page = new_pages[pj].duplicate();
                        let ghost pre = state.pages@;
                        let ghost pv = page@;
                        proof {
                            assert(pv == nv[pj as int]);
                            assert(pv.idx == tidx + 1 + pj);
                        }
                        state.pages.add_page(page);
                        store.save_pages_state(&state.pages);
                        pj = pj + 1;
                        proof {
                            lemma_append_preserves_links(pre, pv);
                            lemma_append_preserves_indexed(pre, pv);
                            lemma_append_pages_snoc(orig_pages, nv, pj - 1);
                            assert(nv.take(pj as int)[pj - 1] == nv[pj - 1]);
                        }
                    }
                    proof {
                        assert(nv.take(kk as int) =~= nv);
                    }
                    let r = PollReport {
                        status: PollStatus::CaughtUp,
                        new_pages,
                        deliveries,
                        next_url: Some(new_url),
                    };
                    return r;
                },
            }
        },
    }
}

/// Builds the shared state at startup: loads the persisted chain, runs the
/// catch-up walk (persisting after every single append), and loads the
/// subscriber set. Pages found here are backlog: nobody is notified.
pub fn init_bot_state<S: KsbdScraper, PM: PagesStateManager, SM: SubsStateManager>(
    scraper: &mut S,
    pages_store: &mut PM,
    subs_store: &mut SM,
) -> (r: BotState)
    ensures
        r.wf(),
{
    let mut pages = pages_store.load_pages_state();
    restore_pages_from(&mut pages, scraper, pages_store);
    let subscribers = subs_store.load_subs_state();
    BotState { pages, subscribers }
}

} // verus!
