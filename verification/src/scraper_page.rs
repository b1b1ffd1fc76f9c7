//! Turning fetched markup into a page record.
//!
//! The HTML engine (an outside crate) extracts raw values from the
//! document: attribute pairs of the content images, the text nodes of the
//! entry paragraphs, and the forward navigation link. Everything after
//! that extraction — choosing the title, collecting image addresses,
//! escaping, assembling the record — is verified, with `build_page`
//! carrying the exact contract on the extracted values.

use crate::ksbd_page::{no_delims, KsbdPage, PageView};
use crate::ksbd_page_error::GetPageError;
use crate::page_to_send::block_sep;
use crate::text::{escape_chars, escape_seq, lemma_escape_no_delims, str_chars, string_from_chars};
use vstd::prelude::*;

verus! {

/// What selecting on the document built from `html` with the selector
/// group `sel` extracts through the attributes `a1` and `a2`: one value
/// pair per matching element, in document order. Parsing and selection
/// are deterministic, so the extraction is a function of the four texts
/// alone; an invalid selector group extracts nothing.
pub uninterp spec fn selected_attrs_of(
    html: Seq<char>,
    sel: Seq<char>,
    a1: Seq<char>,
    a2: Seq<char>,
) -> Seq<(Option<Seq<char>>, Option<Seq<char>>)>;

/// What selecting on the document built from `html` with the selector
/// group `sel` extracts through text content: the matching elements'
/// text nodes, flattened in document order. A function of the two texts
/// alone; an invalid selector group extracts nothing.
pub uninterp spec fn selected_texts_of(html: Seq<char>, sel: Seq<char>) -> Seq<Seq<char>>;

/// Relies on scraper's Html::parse_document, Selector::parse, Html::select
/// and Element::attr: parsing never fails hard, selection walks the tree
/// in document order, attribute lookup is keyed, and the whole extraction
/// depends on the four argument texts alone.
#[verifier::external_body]
fn select_attrs(html: &str, sel: &str, a1: &str, a2: &str) -> (r: Vec<
    (Option<String>, Option<String>),
>)
    ensures
        r@.map_values(|p: (Option<String>, Option<String>)| pair_view(p)) == selected_attrs_of(
            html@,
            sel@,
            a1@,
            a2@,
        ),
{
    let doc = scraper::Html::parse_document(html);
    match scraper::Selector::parse(sel) {
        Err(_) => Vec::new(),
        Ok(s) => doc.select(&s).map(
            |el|
                (
                    el.value().attr(a1).map(|v| v.to_string()),
                    el.value().attr(a2).map(|v| v.to_string()),
                ),
        ).collect(),
    }
}

/// Relies on scraper's Html::parse_document, Selector::parse, Html::select
/// and ElementRef::text: the matching elements' text nodes, flattened in
/// document order; the extraction depends on the two argument texts alone.
#[verifier::external_body]
fn select_entry_texts(html: &str, sel: &str) -> (r: Vec<String>)
    ensures
        r@.map_values(|t: String| t@) == selected_texts_of(html@, sel@),
{
    let doc = scraper::Html::parse_document(html);
    match scraper::Selector::parse(sel) {
        Err(_) => Vec::new(),
        Ok(s) => doc.select(&s).flat_map(|el| el.text().map(|t| t.to_string())).collect(),
    }
}

/// The attribute pair of one content image, as spec values.
pub open spec fn pair_view(p: (Option<String>, Option<String>)) -> (
    Option<Seq<char>>,
    Option<Seq<char>>,
) {
    (
        match p.0 {
            Some(t) => Some(t@),
            None => None,
        },
        match p.1 {
            Some(u) => Some(u@),
            None => None,
        },
    )
}

/// The first title attribute that any content image carries.
pub open spec fn first_title(ps: Seq<(Option<Seq<char>>, Option<Seq<char>>)>) -> Option<Seq<char>>
    decreases ps.len(),
{
    if ps.len() == 0 {
        None
    } else {
        match ps[0].0 {
            Some(t) => Some(t),
            None => first_title(ps.drop_first()),
        }
    }
}

/// The source addresses of the content images, in order, skipping images
/// that carry none.
pub open spec fn src_urls(ps: Seq<(Option<Seq<char>>, Option<Seq<char>>)>) -> Seq<Seq<char>>
    decreases ps.len(),
{
    if ps.len() == 0 {
        Seq::empty()
    } else {
        src_urls(ps.drop_last()) + (match ps.last().1 {
            Some(u) => seq![u],
            None => Seq::<Seq<char>>::empty(),
        })
    }
}

/// The separator written between two body text blocks.
pub open spec fn para_sep() -> Seq<char> {
    block_sep() + block_sep()
}

/// The body stored for a page: every text node escaped, joined by the
/// paragraph separator.
pub open spec fn joined_escaped(ts: Seq<Seq<char>>) -> Seq<char>
    decreases ts.len(),
{
    if ts.len() == 0 {
        Seq::empty()
    } else if ts.len() == 1 {
        escape_seq(ts[0])
    } else {
        joined_escaped(ts.drop_last()) + para_sep() + escape_seq(ts.last())
    }
}

/// The stored body never holds a delimiter character: the escaped pieces
/// are delimiter-free and so is the separator between them.
pub proof fn lemma_joined_escaped_no_delims(ts: Seq<Seq<char>>)
    ensures
        no_delims(joined_escaped(ts)),
    decreases ts.len(),
{
    if ts.len() == 1 {
        lemma_escape_no_delims(ts[0]);
    } else if ts.len() > 1 {
        lemma_joined_escaped_no_delims(ts.drop_last());
        lemma_escape_no_delims(ts.last());
    }
}

/// The page record that the extracted raw values assemble into.
pub open spec fn page_model(
    idx: int,
    url: Seq<char>,
    attrs: Seq<(Option<Seq<char>>, Option<Seq<char>>)>,
    texts: Seq<Seq<char>>,
    next: Option<Seq<char>>,
) -> PageView {
    PageView {
        idx,
        title: escape_seq(
            match first_title(attrs) {
                Some(t) => t,
                None => "NO TITLE"@,
            },
        ),
        url,
        imgs: src_urls(attrs),
        text: joined_escaped(texts),
        next,
    }
}

/// Assembles a page record from the raw values extracted out of the
/// document: the title is the first image's title attribute (or a fixed
/// placeholder), the images are the source addresses in order, the body is
/// the escaped text nodes joined by the paragraph separator. Fails exactly
/// when the content area yielded no image address.
pub fn build_page(
    idx: usize,
    url: &str,
    img_attrs: Vec<(Option<String>, Option<String>)>,
    texts: Vec<String>,
    next: Option<String>,
) -> (r: Result<KsbdPage, GetPageError>)
    ensures
        ({
            let attrs = img_attrs@.map_values(|p: (Option<String>, Option<String>)| pair_view(p));
            let tv = texts@.map_values(|t: String| t@);
            let nv = match next {
                Some(u) => Some(u@),
                None => None,
            };
            match r {
                Ok(p) => src_urls(attrs).len() > 0 && p@ == page_model(
                    idx as int,
                    url@,
                    attrs,
                    tv,
                    nv,
                ),
                Err(e) => src_urls(attrs).len() == 0 && (e matches GetPageError::NoImg(u) && u@
                    == url@),
            }
        }),
{
    let ghost attrs = img_attrs@.map_values(|p: (Option<String>, Option<String>)| pair_view(p));
    let n = img_attrs.len();
    let mut title: Option<String> = None;
    let mut srcs: Vec<String> = Vec::new();
    let mut i: usize = 0;
    proof {
        assert(attrs.skip(0) =~= attrs);
        assert(attrs.take(0) =~= Seq::<(Option<Seq<char>>, Option<Seq<char>>)>::empty());
        assert(srcs.deep_view() =~= Seq::<Seq<char>>::empty());
    }
    while i < n
        invariant
            i <= n,
            n == img_attrs@.len(),
            attrs == img_attrs@.map_values(|p: (Option<String>, Option<String>)| pair_view(p)),
            match title {
                Some(t) => first_title(attrs) == Some(t@),
                None => first_title(attrs) == first_title(attrs.skip(i as int)),
            },
            srcs.deep_view() == src_urls(attrs.take(i as int)),
        decreases n - i,
    {
        let ghost pre = attrs.skip(i as int);
        let pair = &img_attrs[i];
        if title.is_none() {
            match &pair.0 {
                Some(t) => {
                    title = Some(t.clone());
                    proof {
                        assert(pre[0] == attrs[i as int]);
                    }
                },
                None => {
                    proof {
                        assert(pre[0] == attrs[i as int]);
                        assert(pre.drop_first() =~= attrs.skip(i + 1));
                    }
                },
            }
        }
        let ghost before = srcs.deep_view();
        match &pair.1 {
            Some(u) => {
                srcs.push(u.clone());
                proof {
                    assert(attrs.take(i + 1).drop_last() =~= attrs.take(i as int));
                    assert(attrs.take(i + 1).last() == attrs[i as int]);
                    assert(srcs.deep_view() =~~= before + seq![u@]);
                }
            },
            None => {
                proof {
                    assert(attrs.take(i + 1).drop_last() =~= attrs.take(i as int));
                    assert(attrs.take(i + 1).last() == attrs[i as int]);
                    assert(before + Seq::<Seq<char>>::empty() =~= before);
                }
            },
        }
        i = i + 1;
    }
    proof {
        assert(attrs.take(n as int) =~= attrs);
        assert(attrs.skip(n as int) =~= Seq::<(Option<Seq<char>>, Option<Seq<char>>)>::empty());
    }

    if srcs.len() == 0 {
        return Err(GetPageError::no_img(url));
    }

    let tv_raw = match &title {
        Some(t) => str_chars(t.as_str()),
        None => str_chars("NO TITLE"),
    };
    let title_chars = escape_chars(tv_raw.as_slice());
    let stored_title = string_from_chars(title_chars.as_slice());

    let ghost tv = texts@.map_values(|t: String| t@);
    let m = texts.len();
    let mut body: Vec<char> = Vec::new();
    let mut j: usize = 0;
    proof {
        assert(tv.take(0) =~= Seq::<Seq<char>>::empty());
    }
    while j < m
        invariant
            j <= m,
            m == texts@.len(),
            tv == texts@.map_values(|t: String| t@),
            body@ == joined_escaped(tv.take(j as int)),
        decreases m - j,
    {
        let ghost before = body@;
        if j > 0 {
            body.push('%');
            body.push('0');
            body.push('D');
            body.push('%');
            body.push('0');
            body.push('A');
            body.push('%');
            body.push('0');
            body.push('D');
            body.push('%');
            body.push('0');
            body.push('A');
            proof {
                assert(body@ =~= before + para_sep());
            }
        }
        let tc = str_chars(texts[j].as_str());
        let ec = escape_chars(tc.as_slice());
        let mut q: usize = 0;
        let ghost mid = body@;
        while q < ec.len()
            invariant
                q <= ec@.len(),
                body@ == mid + ec@.take(q as int),
            decreases ec@.len() - q,
        {
            body.push(ec[q]);
            q = q + 1;
            proof {
                assert(mid + ec@.take(q as int) =~= (mid + ec@.take(q - 1)).push(ec@[q - 1]));
            }
        }
        proof {
            assert(ec@.take(ec@.len() as int) =~= ec@);
            assert(tv.take(j + 1).drop_last() =~= tv.take(j as int));
            assert(tv.take(j + 1).last() == tv[j as int]);
            if j == 0 {
                assert(before =~= Seq::<char>::empty());
                assert(body@ =~= escape_seq(tv[0]));
                assert(tv.take(1)[0] == tv[0]);
            }
        }
        j = j + 1;
    }
    proof {
        assert(tv.take(m as int) =~= tv);
    }

    let page = KsbdPage {
        idx,
        title: stored_title,
        url: String::from_str(url),
        imgs: srcs,
        text: string_from_chars(body.as_slice()),
        next,
    };
    Ok(page)
}

/// A fetch capability: retrieves the page at one address, parses it into a
/// page record filed under the given index, and stores the page's images
/// as local resources. An implementation must return a record carrying the
/// requested index and address, whose stored title and body are free of
/// delimiter characters, and which references at least one image.
pub trait KsbdScraper {
    fn request_page(&mut self, idx: usize, url: &str) -> (r: Result<KsbdPage, GetPageError>)
        ensures
            r matches Ok(p) ==> p@.idx == idx as int && p@.url == url@ && no_delims(p@.title)
                && no_delims(p@.text) && p@.imgs.len() > 0,
    ;
}

/// The raw values the markup at `html` yields: the content images'
/// attribute pairs, the entry paragraphs' texts, and the forward
/// navigation link (the first matching anchor's address).
pub open spec fn comic_img_attrs_of(html: Seq<char>) -> Seq<
    (Option<Seq<char>>, Option<Seq<char>>),
> {
    selected_attrs_of(html, "#comic img"@, "title"@, "src"@)
}

pub open spec fn entry_texts_of(html: Seq<char>) -> Seq<Seq<char>> {
    selected_texts_of(html, ".entry p"@)
}

pub open spec fn next_link_of(html: Seq<char>) -> Option<Seq<char>> {
    let links = selected_attrs_of(
        html,
        "#sidebar-over-comic > div > table > tbody > tr > td.comic_navi_right > a.navi.comic-nav-next.navi-next"@,
        "href"@,
        "href"@,
    );
    if links.len() > 0 {
        links[0].0
    } else {
        None
    }
}

/// Extracts the structured page record from fetched markup: the content
/// images' title and source attributes, the entry paragraphs' text, and
/// the forward navigation link, assembled by `build_page` — exactly the
/// record that the extracted raw values of the markup determine, and the
/// no-image error exactly when the markup yields no image address.
pub fn parse_page(idx: usize, url: &str, html: &str) -> (r: Result<KsbdPage, GetPageError>)
    ensures
        match r {
            Ok(p) => src_urls(comic_img_attrs_of(html@)).len() > 0 && p@ == page_model(
                idx as int,
                url@,
                comic_img_attrs_of(html@),
                entry_texts_of(html@),
                next_link_of(html@),
            ),
            Err(e) => src_urls(comic_img_attrs_of(html@)).len() == 0 && (e
                matches GetPageError::NoImg(u) && u@ == url@),
        },
        r matches Ok(p) ==> p@.idx == idx as int && p@.url == url@ && no_delims(p@.title)
            && no_delims(p@.text) && p@.imgs.len() > 0,
{
    let img_attrs = select_attrs(html, "#comic img", "title", "src");
    let texts = select_entry_texts(html, ".entry p");
    let mut links = select_attrs(
        html,
        "#sidebar-over-comic > div > table > tbody > tr > td.comic_navi_right > a.navi.comic-nav-next.navi-next",
        "href",
        "href",
    );
    let next: Option<String> = if links.len() > 0 {
        let first = links.remove(0);
        first.0
    } else {
        None
    };
    proof {
        assert(img_attrs@.map_values(|q: (Option<String>, Option<String>)| pair_view(q))
            == comic_img_attrs_of(html@));
        assert(texts@.map_values(|t: String| t@) == entry_texts_of(html@));
        assert((match next {
            Some(u) => Some(u@),
            None => None,
        }) == next_link_of(html@));
    }
    let r = build_page(idx, url, img_attrs, texts, next);
    proof {
        if r is Ok {
            lemma_escape_no_delims(
                match first_title(comic_img_attrs_of(html@)) {
                    Some(t) => t,
                    None => "NO TITLE"@,
                },
            );
            lemma_joined_escaped_no_delims(entry_texts_of(html@));
        }
    }
    r
}

} // verus!
