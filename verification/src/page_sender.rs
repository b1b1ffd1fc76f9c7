//! What delivering one page to one chat consists of: the ordered plan of
//! messages — banner, title, image documents, text pieces — with the
//! navigation and translation markup assigned to the right steps. The
//! transport that executes a plan lives outside the library, behind the
//! delivery trait.

use crate::page_to_send::{img_file_name, PageToSend, SendView};
use crate::text::{dec_rep, dec_string};
use vstd::prelude::*;

verus! {

/// The longest text message the plan will emit; longer runs of blocks are
/// cut at block boundaries.
pub const MAX_TEXT_LEN: usize = 2000;

/// Joining short text blocks: each block either opens a new piece or is
/// glued to the previous piece with a blank line, when the two together
/// stay under `max_len` characters.
pub open spec fn resize_spec(ts: Seq<Seq<char>>, max_len: int) -> Seq<Seq<char>>
    decreases ts.len(),
{
    if ts.len() == 0 {
        Seq::empty()
    } else {
        let acc = resize_spec(ts.drop_last(), max_len);
        let t = ts.last();
        if acc.len() == 0 {
            seq![t]
        } else if acc.last().len() + t.len() < max_len {
            acc.update(acc.len() - 1, acc.last() + "\n\n"@ + t)
        } else {
            acc.push(t)
        }
    }
}

/// Joining text blocks never yields an empty run for a non-empty input.
pub proof fn lemma_resize_nonempty(ts: Seq<Seq<char>>, max_len: int)
    requires
        ts.len() > 0,
    ensures
        resize_spec(ts, max_len).len() > 0,
    decreases ts.len(),
{
    if ts.drop_last().len() > 0 {
        lemma_resize_nonempty(ts.drop_last(), max_len);
    }
}

/// Re-arranges text blocks into pieces of at most `max_len` characters,
/// gluing consecutive blocks with a blank line while they fit. A single
/// block longer than `max_len` stands alone, uncut.
pub fn resize_text(txt: &Vec<String>, max_len: usize) -> (r: Vec<String>)
    ensures
        r.deep_view() == resize_spec(txt.deep_view(), max_len as int),
{
    let ghost tv = txt.deep_view();
    let n = txt.len();
    let mut r: Vec<String> = Vec::new();
    let mut i: usize = 0;
    proof {
        assert(tv.take(0) =~= Seq::<Seq<char>>::empty());
        assert(r.deep_view() =~= Seq::<Seq<char>>::empty());
    }
    while i < n
        invariant
            i <= n,
            n == txt@.len(),
            tv == txt.deep_view(),
            r.deep_view() == resize_spec(tv.take(i as int), max_len as int),
        decreases n - i,
    {
        let ghost acc = r.deep_view();
        proof {
            assert(tv.take(i + 1).drop_last() =~= tv.take(i as int));
            assert(tv.take(i + 1).last() == tv[i as int]);
            assert(txt@[i as int].deep_view() == tv[i as int]);
        }
        if r.len() == 0 {
            r.push(txt[i].clone());
            proof {
                assert(r.deep_view() =~~= seq![tv[i as int]]);
            }
        } else {
            let ll = r[r.len() - 1].as_str().unicode_len();
            let tl = txt[i].as_str().unicode_len();
            if tl < max_len && ll < max_len - tl {
                let mut last = match r.pop() {
                    Some(s) => s,
                    None => String::new(),
                };
                last.append("\n\n");
                last.append(txt[i].as_str());
                r.push(last);
                proof {
                    assert(r.deep_view() =~~= acc.update(
                        acc.len() - 1,
                        acc.last() + "\n\n"@ + tv[i as int],
                    ));
                }
            } else {
                r.push(txt[i].clone());
                proof {
                    assert(r.deep_view() =~~= acc.push(tv[i as int]));
                }
            }
        }
        i = i + 1;
    }
    proof {
        assert(tv.take(n as int) =~= tv);
    }
    r
}

/// The result of percent-encoding a text for use inside a URL.
pub uninterp spec fn url_encoded_of(s: Seq<char>) -> Seq<char>;

/// Relies on urlencoding::encode: percent-encodes every byte except ASCII
/// alphanumerics and `-`, `_`, `.`, `~`; the result is a function of the
/// text alone.
#[verifier::external_body]
fn url_encode(s: &str) -> (r: String)
    ensures
        r@ == url_encoded_of(s@),
{
    urlencoding::encode(s).into_owned()
}

/// The address of the translation page for a piece of text.
pub open spec fn translate_url_spec(txt: Seq<char>) -> Seq<char> {
    "https://translate.google.com/?sl=en&tl=ru&text="@ + url_encoded_of(txt) + "&op=translate"@
}

/// Builds the address of the translation page for a piece of text.
pub fn translate_url(txt: &str) -> (r: String)
    ensures
        r@ == translate_url_spec(txt@),
{
    let mut u = String::from_str("https://translate.google.com/?sl=en&tl=ru&text=");
    let e = url_encode(txt);
    u.append(e.as_str());
    u.append("&op=translate");
    u
}

/// One in-chat navigation step away from a page: to its predecessor or to
/// its successor, carrying the target index.
#[derive(Debug, Clone, Copy, PartialEq, Eq, Structural)]
pub enum NavAction {
    Prev(usize),
    Next(usize),
}

/// The navigation actions a page offers: back unless it is the first
/// page, forward when a successor is known.
pub open spec fn nav_btns_spec(v: SendView) -> Seq<NavAction> {
    (if v.idx > 0 {
        seq![NavAction::Prev((v.idx - 1) as usize)]
    } else {
        Seq::<NavAction>::empty()
    }) + (if v.has_next {
        seq![NavAction::Next((v.idx + 1) as usize)]
    } else {
        Seq::<NavAction>::empty()
    })
}

/// The navigation buttons offered under a delivered page.
pub fn nav_btns(p: &PageToSend) -> (r: Vec<NavAction>)
    requires
        p@.has_next ==> p@.idx < usize::MAX,
    ensures
        r@ == nav_btns_spec(p@),
{
    let mut r: Vec<NavAction> = Vec::new();
    if p.idx > 0 {
        r.push(NavAction::Prev(p.idx - 1));
    }
    if p.has_next {
        r.push(NavAction::Next(p.idx + 1));
    }
    proof {
        assert(r@ =~= nav_btns_spec(p@));
    }
    r
}

/// The callback data a jump or navigation button carries for a target
/// page index.
pub fn nav_callback_data(idx: usize) -> (r: String)
    ensures
        r@ == "n-"@ + dec_rep(idx as int),
{
    let mut s = String::from_str("n-");
    let d = dec_string(idx);
    s.append(d.as_str());
    s
}

/// A delivery capability: sends one prepared page to one chat, telling
/// whether the delivery went through. A failed delivery must be contained:
/// it concerns that one chat alone.
pub trait PageSender {
    fn send_page(&mut self, page: &PageToSend, to: i64) -> (r: bool)
        requires
            page@.imgs.len() > 0 || page@.text.len() > 0,
    ;
}

/// One message of a delivery: the fresh-page banner, the title, an image
/// document (the last one carrying the navigation row), or a text piece
/// (every text piece carries a translation button; the last one also
/// carries the navigation row).
#[derive(Debug, Clone, PartialEq, Eq)]
pub enum SendStep {
    Banner,
    Title(String),
    Doc(String),
    DocWithNav(String),
    Text(String),
    TextWithNav(String),
}

/// Mathematical picture of one message of a delivery.
pub enum StepView {
    Banner,
    Title(Seq<char>),
    Doc(Seq<char>),
    DocWithNav(Seq<char>),
    Text(Seq<char>),
    TextWithNav(Seq<char>),
}

impl View for SendStep {
    type V = StepView;

    open spec fn view(&self) -> StepView {
        match self {
            SendStep::Banner => StepView::Banner,
            SendStep::Title(t) => StepView::Title(t@),
            SendStep::Doc(f) => StepView::Doc(f@),
            SendStep::DocWithNav(f) => StepView::DocWithNav(f@),
            SendStep::Text(t) => StepView::Text(t@),
            SendStep::TextWithNav(t) => StepView::TextWithNav(t@),
        }
    }
}

/// The full delivery plan for one page: the banner when the page is fresh,
/// then the title when there is one; with no body text, every image as a
/// document with the navigation row on the last; otherwise every image as
/// a document, then the re-arranged text pieces, the last one carrying the
/// navigation row.
pub open spec fn send_plan_spec(v: SendView, dp: Seq<char>) -> Seq<StepView> {
    let files = Seq::new(v.imgs.len(), |k: int| img_file_name(dp, v.idx, k));
    let banner = if v.is_new {
        seq![StepView::Banner]
    } else {
        Seq::<StepView>::empty()
    };
    let title = match v.title {
        Some(t) => seq![StepView::Title(t)],
        None => Seq::<StepView>::empty(),
    };
    if v.text.len() == 0 {
        banner + title + files.drop_last().map_values(|f: Seq<char>| StepView::Doc(f)) + seq![
            StepView::DocWithNav(files.last()),
        ]
    } else {
        let ts = resize_spec(v.text, MAX_TEXT_LEN as int);
        banner + title + files.map_values(|f: Seq<char>| StepView::Doc(f))
            + ts.drop_last().map_values(|t: Seq<char>| StepView::Text(t)) + seq![
            StepView::TextWithNav(ts.last()),
        ]
    }
}

/// Lays out the messages that deliver `p`, with its images stored under
/// `data_path`.
#[verifier::rlimit(60)]
pub fn send_plan(p: &PageToSend, data_path: &str) -> (r: Vec<SendStep>)
    requires
        p@.imgs.len() > 0 || p@.text.len() > 0,
    ensures
        r@.map_values(|s: SendStep| s@) == send_plan_spec(p@, data_path@),
{
    let ghost goal = send_plan_spec(p@, data_path@);
    let mut r: Vec<SendStep> = Vec::new();
    if p.is_new {
        r.push(SendStep::Banner);
    }
    match &p.title {
        Some(t) => {
            r.push(SendStep::Title(t.clone()));
        },
        None => {},
    }
    let ghost head = r@.map_values(|s: SendStep| s@);
    let files = p.img_files(data_path);
    let ghost fv = Seq::new(p@.imgs.len(), |k: int| img_file_name(data_path@, p@.idx, k));
    proof {
        assert(files.deep_view() =~= fv);
    }
    if p.text.len() == 0 {
        let m = files.len();
        let mut k: usize = 0;
        proof {
            assert(fv.drop_last().map_values(|f: Seq<char>| StepView::Doc(f)).take(0) =~= Seq::<
                StepView,
            >::empty());
        }
        while k < m - 1
            invariant
                m >= 1,
                k <= m - 1,
                m == files@.len(),
                fv == files.deep_view(),
                r@.map_values(|s: SendStep| s@) == head + fv.take(k as int).map_values(
                    |f: Seq<char>| StepView::Doc(f),
                ),
            decreases m - k,
        {
            let ghost before = r@.map_values(|s: SendStep| s@);
            r.push(SendStep::Doc(files[k].clone()));
            k = k + 1;
            proof {
                assert(r@.map_values(|s: SendStep| s@) =~~= before.push(StepView::Doc(
                    fv[k - 1],
                )));
                assert(fv.take(k as int).map_values(|f: Seq<char>| StepView::Doc(f)) =~= fv.take(
                    k - 1,
                ).map_values(|f: Seq<char>| StepView::Doc(f)).push(StepView::Doc(fv[k - 1])));
                assert(head + fv.take(k - 1).map_values(|f: Seq<char>| StepView::Doc(f)).push(
                    StepView::Doc(fv[k - 1]),
                ) =~= (head + fv.take(k - 1).map_values(|f: Seq<char>| StepView::Doc(f))).push(
                    StepView::Doc(fv[k - 1]),
                ));
            }
        }
        let ghost before = r@.map_values(|s: SendStep| s@);
        r.push(SendStep::DocWithNav(files[m - 1].clone()));
        proof {
            assert(fv.take(m - 1) =~= fv.drop_last());
            assert(r@.map_values(|s: SendStep| s@) =~~= before.push(StepView::DocWithNav(
                fv.last(),
            )));
            assert(goal =~= (head + fv.drop_last().map_values(|f: Seq<char>| StepView::Doc(f)))
                + seq![StepView::DocWithNav(fv.last())]);
        }
        r
    } else {
        let m = files.len();
        let mut k: usize = 0;
        while k < m
            invariant
                k <= m,
                m == files@.len(),
                fv == files.deep_view(),
                r@.map_values(|s: SendStep| s@) == head + fv.take(k as int).map_values(
                    |f: Seq<char>| StepView::Doc(f),
                ),
            decreases m - k,
        {
            let ghost before = r@.map_values(|s: SendStep| s@);
            r.push(SendStep::Doc(files[k].clone()));
            k = k + 1;
            proof {
                assert(r@.map_values(|s: SendStep| s@) =~~= before.push(StepView::Doc(
                    fv[k - 1],
                )));
                assert(fv.take(k as int).map_values(|f: Seq<char>| StepView::Doc(f)) =~= fv.take(
                    k - 1,
                ).map_values(|f: Seq<char>| StepView::Doc(f)).push(StepView::Doc(fv[k - 1])));
                assert(head + fv.take(k - 1).map_values(|f: Seq<char>| StepView::Doc(f)).push(
                    StepView::Doc(fv[k - 1]),
                ) =~= (head + fv.take(k - 1).map_values(|f: Seq<char>| StepView::Doc(f))).push(
                    StepView::Doc(fv[k - 1]),
                ));
            }
        }
        proof {
            assert(fv.take(m as int) =~= fv);
        }
        let ghost head2 = r@.map_values(|s: SendStep| s@);
        let texts = resize_text(&p.text, MAX_TEXT_LEN);
        let ghost ts = resize_spec(p@.text, MAX_TEXT_LEN as int);
        proof {
            lemma_resize_nonempty(p@.text, MAX_TEXT_LEN as int);
            assert(texts.deep_view() == ts);
        }
        let w = texts.len();
        let mut q: usize = 0;
        while q < w - 1
            invariant
                w >= 1,
                q <= w - 1,
                w == texts@.len(),
                ts == texts.deep_view(),
                r@.map_values(|s: SendStep| s@) == head2 + ts.take(q as int).map_values(
                    |t: Seq<char>| StepView::Text(t),
                ),
            decreases w - q,
        {
            let ghost before = r@.map_values(|s: SendStep| s@);
            r.push(SendStep::Text(texts[q].clone()));
            q = q + 1;
            proof {
                assert(r@.map_values(|s: SendStep| s@) =~~= before.push(StepView::Text(
                    ts[q - 1],
                )));
                assert(ts.take(q as int).map_values(|t: Seq<char>| StepView::Text(t)) =~= ts.take(
                    q - 1,
                ).map_values(|t: Seq<char>| StepView::Text(t)).push(StepView::Text(ts[q - 1])));
                assert(head2 + ts.take(q - 1).map_values(|t: Seq<char>| StepView::Text(t)).push(
                    StepView::Text(ts[q - 1]),
                ) =~= (head2 + ts.take(q - 1).map_values(|t: Seq<char>| StepView::Text(t))).push(
                    StepView::Text(ts[q - 1]),
                ));
            }
        }
        let ghost before = r@.map_values(|s: SendStep| s@);
        r.push(SendStep::TextWithNav(texts[w - 1].clone()));
        proof {
            assert(ts.take(w - 1) =~= ts.drop_last());
            assert(r@.map_values(|s: SendStep| s@) =~~= before.push(StepView::TextWithNav(
                ts.last(),
            )));
            assert(goal =~= ((head + fv.map_values(|f: Seq<char>| StepView::Doc(f))) + ts.drop_last(
            ).map_values(|t: Seq<char>| StepView::Text(t))) + seq![
                StepView::TextWithNav(ts.last()),
            ]);
        }
        r
    }
}

} // verus!
