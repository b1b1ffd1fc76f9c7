//! The append-only ordered page chain.
//!
//! The chain owns the forward-link invariant: every page except the last
//! points at the address of its immediate successor. Append is the only
//! mutation; appending repairs the previous tail's forward link, because a
//! page's successor address is only authoritative until the successor
//! itself is appended.

use crate::ksbd_page::{no_delims, KsbdPage, PageView};
use vstd::prelude::*;

verus! {

/// The well-known seed address where the very first crawl starts.
pub open spec fn seed_url() -> Seq<char> {
    "https://killsixbilliondemons.com/comic/kill-six-billion-demons-chapter-1/"@
}

/// Every page but the last points at the address of its successor.
pub open spec fn linked(s: Seq<PageView>) -> bool {
    forall|i: int| 0 <= i < s.len() - 1 ==> #[trigger] s[i].next == Some(s[i + 1].url)
}

/// Every page's `idx` field equals its position in the chain.
pub open spec fn indexed(s: Seq<PageView>) -> bool {
    forall|i: int| 0 <= i < s.len() ==> #[trigger] s[i].idx == i
}

/// `p` with its forward link rewritten to `u`.
pub open spec fn patch_next(p: PageView, u: Seq<char>) -> PageView {
    PageView { next: Some(u), ..p }
}

/// The chain after one append: the previous tail's forward link is
/// rewritten to the new page's address, then the new page becomes the tail.
pub open spec fn append_page(s: Seq<PageView>, p: PageView) -> Seq<PageView> {
    if s.len() == 0 {
        seq![p]
    } else {
        s.update(s.len() - 1, patch_next(s.last(), p.url)).push(p)
    }
}

/// The chain after appending a whole batch, in order.
pub open spec fn append_pages(s: Seq<PageView>, ps: Seq<PageView>) -> Seq<PageView>
    decreases ps.len(),
{
    if ps.len() == 0 {
        s
    } else {
        append_pages(append_page(s, ps[0]), ps.drop_first())
    }
}

/// Where a walk must resume to extend the chain: the seed address at index
/// 0 for an empty chain; one past the tail, at the tail's forward address,
/// when the tail has one; nowhere when the chain is caught up.
pub open spec fn resume_cursor(s: Seq<PageView>) -> Option<(int, Seq<char>)> {
    if s.len() == 0 {
        Some((0, seed_url()))
    } else {
        match s.last().next {
            Some(u) => Some((s.len() as int, u)),
            None => None,
        }
    }
}

/// Law: appending preserves the forward-link invariant, whatever page is
/// appended. Every chain produced from the empty chain by any sequence of
/// appends therefore satisfies it.
pub proof fn lemma_append_preserves_links(s: Seq<PageView>, p: PageView)
    requires
        linked(s),
    ensures
        linked(append_page(s, p)),
{
    let n = append_page(s, p);
    if s.len() > 0 {
        assert forall|i: int| 0 <= i < n.len() - 1 implies #[trigger] n[i].next == Some(
            n[i + 1].url,
        ) by {
            if i == s.len() - 1 {
                assert(n[i] == patch_next(s.last(), p.url));
                assert(n[i + 1] == p);
            } else {
                assert(n[i] == s[i]);
                // the element at i + 1 is either untouched or patched, and
                // patching keeps the address
                assert(n[i + 1].url == s[i + 1].url);
            }
        }
    }
}

/// Law: appending a page whose `idx` equals the chain's length keeps every
/// page's `idx` equal to its position.
pub proof fn lemma_append_preserves_indexed(s: Seq<PageView>, p: PageView)
    requires
        indexed(s),
        p.idx == s.len(),
    ensures
        indexed(append_page(s, p)),
{
    let n = append_page(s, p);
    assert forall|i: int| 0 <= i < n.len() implies #[trigger] n[i].idx == i by {
        if i < s.len() - 1 {
            assert(n[i] == s[i]);
        } else if i == s.len() - 1 && s.len() > 0 {
            assert(n[i] == patch_next(s.last(), p.url));
        } else {
            assert(n[i] == p);
        }
    }
}

/// Law: once an append has been persisted, a restart resumes exactly one
/// past the appended page — at its forward address if it reported one, or
/// nowhere if it was the newest page — and never at any earlier index. A
/// crash between appends therefore never re-fetches an already persisted
/// page.
pub proof fn lemma_crash_restart_resumes_after_tail(s: Seq<PageView>, p: PageView)
    ensures
        resume_cursor(append_page(s, p)) == (match p.next {
            Some(u) => Some(((s.len() + 1) as int, u)),
            None => None::<(int, Seq<char>)>,
        }),
{
    let n = append_page(s, p);
    assert(n.last() == p);
    assert(n.len() == s.len() + 1);
}

/// The in-memory, append-only ordered collection of discovered pages.
#[derive(Debug, Clone)]
pub struct PagesState {
    pages: Vec<KsbdPage>,
}

impl View for PagesState {
    type V = Seq<PageView>;

    closed spec fn view(&self) -> Seq<PageView> {
        self.pages@.map_values(|p: KsbdPage| p@)
    }
}

impl Default for PagesState {
    /// The empty chain.
    fn default() -> (r: Self)
        ensures
            r@ == Seq::<PageView>::empty(),
    {
        let r = PagesState { pages: Vec::new() };
        proof {
            assert(r@ =~= Seq::<PageView>::empty());
        }
        r
    }
}

impl PagesState {
    /// The chain's structural invariant: forward links repaired, indices
    /// equal to positions.
    pub open spec fn wf(&self) -> bool {
        linked(self@) && indexed(self@)
    }

    /// Where the next walk starts: the seed address for a chain that has
    /// never resolved a starting point, the index one past the tail at the
    /// tail's forward address when one is known, or nothing when the chain
    /// is caught up.
    pub fn start_from(&self) -> (r: Option<(usize, String)>)
        ensures
            match r {
                Some((i, u)) => resume_cursor(self@) == Some((i as int, u@)),
                None => resume_cursor(self@) is None,
            },
    {
        let l = self.pages.len();
        if l == 0 {
            Some(
                (
                    0,
                    String::from_str(
                        "https://killsixbilliondemons.com/comic/kill-six-billion-demons-chapter-1/",
                    ),
                ),
            )
        } else {
            match &self.pages[l - 1].next {
                None => None,
                Some(n) => Some((l, n.clone())),
            }
        }
    }

    /// Appends `page` as the new tail, first rewriting the previous tail's
    /// forward link to `page`'s address.
    pub fn add_page(&mut self, page: KsbdPage)
        ensures
            final (self)@ == append_page(old(self)@, page@),
    {
        let ghost old_view = self@;
        let ghost pv = page@;
        match self.pages.pop() {
            Some(p) => {
                let prev = KsbdPage { next: Some(page.url.clone()), ..p };
                proof {
                    assert(prev@ == patch_next(old_view.last(), pv.url));
                }
                self.pages.push(prev);
            },
            None => {},
        }
        self.pages.push(page);
        proof {
            if old_view.len() == 0 {
                assert(self@ =~= seq![pv]);
            } else {
                assert(self@ =~= old_view.update(old_view.len() - 1, patch_next(
                    old_view.last(),
                    pv.url,
                )).push(pv));
            }
        }
    }

    /// Appends a whole batch of pages, in order.
    pub fn add_pages(&mut self, pages: Vec<KsbdPage>)
        ensures
            final (self)@ == append_pages(old(self)@, pages@.map_values(|p: KsbdPage| p@)),
    {
        let mut rest = pages;
        let ghost orig = self@;
        let ghost all = pages@.map_values(|p: KsbdPage| p@);
        while rest.len() > 0
            invariant
                append_pages(orig, all) == append_pages(
                    self@,
                    rest@.map_values(|p: KsbdPage| p@),
                ),
            decreases rest.len(),
        {
            let ghost rv = rest@.map_values(|p: KsbdPage| p@);
            let p = rest.remove(0);
            self.add_page(p);
            proof {
                assert(rest@.map_values(|q: KsbdPage| q@) =~= rv.drop_first());
                assert(rv[0] == p@);
            }
        }
        proof {
            assert(rest@.map_values(|p: KsbdPage| p@) =~= Seq::<PageView>::empty());
        }
    }

    /// The first page, if any.
    pub fn first(&self) -> (r: Option<&KsbdPage>)
        ensures
            match r {
                Some(p) => self@.len() > 0 && p@ == self@[0],
                None => self@.len() == 0,
            },
    {
        if self.pages.len() == 0 {
            None
        } else {
            Some(&self.pages[0])
        }
    }

    /// The tail page, if any.
    pub fn last(&self) -> (r: Option<&KsbdPage>)
        ensures
            match r {
                Some(p) => self@.len() > 0 && p@ == self@.last(),
                None => self@.len() == 0,
            },
    {
        let l = self.pages.len();
        if l == 0 {
            None
        } else {
            Some(&self.pages[l - 1])
        }
    }

    /// The page at position `idx`, or nothing when `idx` is out of range.
    pub fn by_idx(&self, idx: usize) -> (r: Option<&KsbdPage>)
        ensures
            match r {
                Some(p) => idx < self@.len() && p@ == self@[idx as int],
                None => idx >= self@.len(),
            },
    {
        if idx < self.pages.len() {
            Some(&self.pages[idx])
        } else {
            None
        }
    }

    /// How many pages the chain holds.
    pub fn len(&self) -> (r: usize)
        ensures
            r == self@.len(),
    {
        self.pages.len()
    }
}

/// Crash-durable persistence of the page chain, for the library's caller
/// to implement. A load must hand back a chain satisfying the structural
/// invariant (the provided decoder guarantees it); what a save does is the
/// implementation's own business and nothing here relies on it.
pub trait PagesStateManager {
    fn load_pages_state(&mut self) -> (r: PagesState)
        ensures
            r.wf(),
    ;

    fn save_pages_state(&mut self, state: &PagesState);
}

/// Pieces joined by a separator character.
pub open spec fn join_char(xs: Seq<Seq<char>>, sep: char) -> Seq<char>
    decreases xs.len(),
{
    if xs.len() == 0 {
        Seq::empty()
    } else if xs.len() == 1 {
        xs[0]
    } else {
        join_char(xs.drop_last(), sep) + seq![sep] + xs.last()
    }
}

/// One page as a flat record: title, address, image addresses joined by
/// `|`, body, and the forward address (the sentinel `NO` standing for a
/// page with no known successor), all separated by tabs.
pub open spec fn encode_page(p: PageView) -> Seq<char> {
    p.title + seq!['\t'] + p.url + seq!['\t'] + join_char(p.imgs, '|') + seq!['\t'] + p.text
        + seq!['\t'] + (match p.next {
        Some(u) => u,
        None => seq!['N', 'O'],
    })
}

/// A whole chain as newline-separated records.
pub open spec fn encode_chain(s: Seq<PageView>) -> Seq<char>
    decreases s.len(),
{
    if s.len() == 0 {
        Seq::empty()
    } else if s.len() == 1 {
        encode_page(s[0])
    } else {
        encode_chain(s.drop_last()) + seq!['\n'] + encode_page(s.last())
    }
}

fn push_record(out: &mut Vec<char>, p: &KsbdPage)
    ensures
        final (out)@ == old(out)@ + encode_page(p@),
{
    let tc = crate::text::str_chars(p.title.as_str());
    crate::text::push_all(out, tc.as_slice());
    out.push('\t');
    let uc = crate::text::str_chars(p.url.as_str());
    crate::text::push_all(out, uc.as_slice());
    out.push('\t');
    let ghost iv = p.imgs.deep_view();
    let ghost mid = out@;
    let m = p.imgs.len();
    let mut j: usize = 0;
    proof {
        assert(join_char(iv.take(0), '|') =~= Seq::<char>::empty());
        assert(out@ =~= mid + join_char(iv.take(0), '|'));
    }
    while j < m
        invariant
            j <= m,
            m == p.imgs@.len(),
            iv == p.imgs.deep_view(),
            out@ == mid + join_char(iv.take(j as int), '|'),
        decreases m - j,
    {
        let ghost before = out@;
        if j > 0 {
            out.push('|');
        }
        let ic = crate::text::str_chars(p.imgs[j].as_str());
        crate::text::push_all(out, ic.as_slice());
        j = j + 1;
        proof {
            let t = iv.take(j as int);
            assert(t.drop_last() =~= iv.take(j - 1));
            assert(t.last() == iv[j - 1]);
            assert(p.imgs@[j - 1].deep_view() == iv[j - 1]);
            assert(p.imgs@[j - 1].deep_view() =~= p.imgs@[j - 1]@);
            if j == 1 {
                assert(out@ =~= mid + iv[0]);
                assert(t[0] == iv[0]);
            } else {
                assert(out@ =~= mid + (join_char(iv.take(j - 1), '|') + seq!['|'] + iv[j - 1]));
            }
        }
    }
    proof {
        assert(iv.take(m as int) =~= iv);
    }
    out.push('\t');
    let bc = crate::text::str_chars(p.text.as_str());
    crate::text::push_all(out, bc.as_slice());
    out.push('\t');
    match &p.next {
        Some(u) => {
            let nc = crate::text::str_chars(u.as_str());
            crate::text::push_all(out, nc.as_slice());
        },
        None => {
            out.push('N');
            out.push('O');
        },
    }
    proof {
        assert(final (out)@ =~= old(out)@ + encode_page(p@));
    }
}

/// What one stored line, at chain position `idx`, parses to: five or more
/// tab-separated fields — title, address, `|`-joined image addresses,
/// body, forward address (with `NO` for none) — or nothing when fields
/// are missing.
pub open spec fn parse_record(line: Seq<char>, idx: int) -> Option<PageView> {
    let fields = crate::text::split_pat_spec(line, seq!['\t']);
    if fields.len() >= 5 {
        Some(
            PageView {
                idx,
                title: fields[0],
                url: fields[1],
                imgs: crate::text::split_pat_spec(fields[2], seq!['|']),
                text: fields[3],
                next: if fields[4] == seq!['N', 'O'] {
                    None
                } else {
                    Some(fields[4])
                },
            },
        )
    } else {
        None
    }
}

/// What a stored file's lines parse to, each at its position, or nothing
/// when any line is malformed.
pub open spec fn parse_records(lines: Seq<Seq<char>>) -> Option<Seq<PageView>>
    decreases lines.len(),
{
    if lines.len() == 0 {
        Some(Seq::empty())
    } else {
        match (parse_records(lines.drop_last()), parse_record(
            lines.last(),
            lines.len() - 1,
        )) {
            (Some(ps), Some(p)) => Some(ps.push(p)),
            _ => None,
        }
    }
}

impl PagesState {
    /// The chain as its flat stored text.
    pub fn encode(&self) -> (r: String)
        ensures
            r@ == encode_chain(self@),
    {
        let mut out: Vec<char> = Vec::new();
        let n = self.pages.len();
        let mut i: usize = 0;
        proof {
            assert(encode_chain(self@.take(0)) =~= Seq::<char>::empty());
            assert(out@ =~= encode_chain(self@.take(0)));
        }
        while i < n
            invariant
                i <= n,
                n == self.pages@.len(),
                self@ == self.pages@.map_values(|p: KsbdPage| p@),
                out@ == encode_chain(self@.take(i as int)),
            decreases n - i,
        {
            let ghost before = out@;
            if i > 0 {
                out.push('\n');
            }
            push_record(&mut out, &self.pages[i]);
            i = i + 1;
            proof {
                let t = self@.take(i as int);
                assert(t.drop_last() =~= self@.take(i - 1));
                assert(t.last() == self@[i - 1]);
                assert(self.pages@[i - 1]@ == self@[i - 1]);
                if i == 1 {
                    assert(out@ =~= encode_page(self@[0]));
                    assert(t[0] == self@[0]);
                } else {
                    assert(out@ =~= encode_chain(self@.take(i - 1)) + seq!['\n'] + encode_page(
                        self@[i - 1],
                    ));
                }
            }
        }
        proof {
            assert(self@.take(n as int) =~= self@);
        }
        crate::text::string_from_chars(out.as_slice())
    }

    /// Reads a stored file back into a chain. Every line becomes the page
    /// at its position; forward links are repaired exactly as appending
    /// repairs them, so the result always satisfies the chain invariant.
    /// Fails exactly when some line has fewer than five fields.
    pub fn decode(s: &str) -> (r: Result<PagesState, String>)
        ensures
            match r {
                Ok(ps) => ps.wf() && (parse_records(
                    crate::text::split_pat_spec(s@, seq!['\n']),
                ) matches Some(rec) && ps@ == append_pages(Seq::empty(), rec)),
                Err(_) => parse_records(crate::text::split_pat_spec(s@, seq!['\n'])) is None,
            },
    {
        let sc = crate::text::str_chars(s);
        let mut nl: Vec<char> = Vec::new();
        nl.push('\n');
        let mut tab: Vec<char> = Vec::new();
        tab.push('\t');
        let mut bar: Vec<char> = Vec::new();
        bar.push('|');
        proof {
            assert(nl@ =~= seq!['\n']);
            assert(tab@ =~= seq!['\t']);
            assert(bar@ =~= seq!['|']);
        }
        let lines = crate::text::split_pat(sc.as_slice(), nl.as_slice());
        let ghost lv = lines.deep_view();
        let n = lines.len();
        let mut ps = PagesState::default();
        let mut i: usize = 0;
        proof {
            assert(lv.take(0) =~= Seq::<Seq<char>>::empty());
            assert(parse_records(lv.take(0)) == Some(Seq::<PageView>::empty()));
        }
        while i < n
            invariant
                i <= n,
                n == lines@.len(),
                lv == lines.deep_view(),
                lv == crate::text::split_pat_spec(s@, seq!['\n']),
                tab@ == seq!['\t'],
                bar@ == seq!['|'],
                ps.wf(),
                ps@.len() == i,
                parse_records(lv.take(i as int)) matches Some(rec) && ps@ == append_pages(
                    Seq::empty(),
                    rec,
                ),
            decreases n - i,
        {
            let fields = crate::text::split_pat(lines[i].as_slice(), tab.as_slice());
            proof {
                assert(lines@[i as int].deep_view() == lv[i as int]);
                assert(lines@[i as int].deep_view() =~= lines@[i as int]@);
                assert(lv.take(i + 1).drop_last() =~= lv.take(i as int));
                assert(lv.take(i + 1).last() == lv[i as int]);
            }
            if fields.len() < 5 {
                proof {
                    assert(fields.deep_view().len() < 5);
                    assert(parse_record(lv[i as int], i as int) is None);
                    lemma_parse_records_none(lv, i as int);
                }
                return Err(String::from_str("bad pages record"));
            }
            let ghost fv = fields.deep_view();
            let imgs_pieces = crate::text::split_pat(fields[2].as_slice(), bar.as_slice());
            let mut imgs: Vec<String> = Vec::new();
            let m = imgs_pieces.len();
            let mut j: usize = 0;
            while j < m
                invariant
                    j <= m,
                    m == imgs_pieces@.len(),
                    imgs.deep_view() == imgs_pieces.deep_view().take(j as int),
                decreases m - j,
            {
                let ghost before = imgs.deep_view();
                imgs.push(crate::text::string_from_chars(imgs_pieces[j].as_slice()));
                j = j + 1;
                proof {
                    assert(imgs_pieces@[j - 1].deep_view() =~= imgs_pieces@[j - 1]@);
                    assert(imgs.deep_view() =~~= before.push(imgs_pieces.deep_view()[j - 1]));
                    assert(imgs_pieces.deep_view().take(j as int) =~= imgs_pieces.deep_view().take(
                        j - 1,
                    ).push(imgs_pieces.deep_view()[j - 1]));
                }
            }
            proof {
                assert(imgs_pieces.deep_view().take(m as int) =~= imgs_pieces.deep_view());
            }
            let nf = &fields[4];
            let is_no = nf.len() == 2 && nf[0] == 'N' && nf[1] == 'O';
            proof {
                assert(fields@[4].deep_view() =~= fields@[4]@);
                if is_no {
                    assert(fv[4] =~= seq!['N', 'O']);
                } else {
                    assert(fv[4] != seq!['N', 'O']) by {
                        if fv[4] == seq!['N', 'O'] {
                            assert(fields@[4]@.len() == 2);
                            assert(fields@[4]@[0] == 'N');
                            assert(fields@[4]@[1] == 'O');
                        }
                    }
                }
                assert(fields@[0].deep_view() =~= fields@[0]@);
                assert(fields@[1].deep_view() =~= fields@[1]@);
                assert(fields@[2].deep_view() =~= fields@[2]@);
                assert(fields@[3].deep_view() =~= fields@[3]@);
            }
            let page = KsbdPage {
                idx: i,
                title: crate::text::string_from_chars(fields[0].as_slice()),
                url: crate::text::string_from_chars(fields[1].as_slice()),
                imgs,
                text: crate::text::string_from_chars(fields[3].as_slice()),
                next: if is_no {
                    None
                } else {
                    Some(crate::text::string_from_chars(fields[4].as_slice()))
                },
            };
            let ghost pre = ps@;
            let ghost pv = page@;
            proof {
                assert(parse_record(lv[i as int], i as int) == Some(pv));
                lemma_append_preserves_links(pre, pv);
                lemma_append_preserves_indexed(pre, pv);
            }
            ps.add_page(page);
            i = i + 1;
            proof {
                let rec0 = parse_records(lv.take(i - 1))->0;
                assert(parse_records(lv.take(i as int)) == Some(rec0.push(pv)));
                lemma_append_pages_last(Seq::empty(), rec0, pv);
            }
        }
        proof {
            assert(lv.take(n as int) =~= lv);
            assert(lv == crate::text::split_pat_spec(s@, seq!['\n']));
        }
        Ok(ps)
    }
}

/// A malformed line anywhere makes the whole file unreadable.
pub proof fn lemma_parse_records_none(lines: Seq<Seq<char>>, i: int)
    requires
        0 <= i < lines.len(),
        parse_record(lines[i], i) is None,
    ensures
        parse_records(lines) is None,
    decreases lines.len(),
{
    if i == lines.len() - 1 {
    } else {
        assert(lines.drop_last()[i] == lines[i]);
        lemma_parse_records_none(lines.drop_last(), i);
    }
}

/// Appending a batch and then one more page is appending the extended
/// batch.
pub proof fn lemma_append_pages_last(s: Seq<PageView>, ps: Seq<PageView>, p: PageView)
    ensures
        append_pages(s, ps.push(p)) == append_page(append_pages(s, ps), p),
    decreases ps.len(),
{
    if ps.len() == 0 {
        let e = ps.push(p);
        assert(e[0] == p);
        assert(e.drop_first() =~= Seq::<PageView>::empty());
        assert(append_pages(s, e) == append_pages(append_page(s, p), Seq::<PageView>::empty()));
    } else {
        let e = ps.push(p);
        assert(e[0] == ps[0]);
        assert(e.drop_first() =~= ps.drop_first().push(p));
        lemma_append_pages_last(append_page(s, ps[0]), ps.drop_first(), p);
        assert(append_pages(s, e) == append_pages(append_page(s, e[0]), e.drop_first()));
        assert(append_pages(s, ps) == append_pages(append_page(s, ps[0]), ps.drop_first()));
    }
}

/// No character of `s` is the image-list separator.
pub open spec fn no_bar(s: Seq<char>) -> bool {
    forall|i: int| 0 <= i < s.len() ==> s[i] != '|'
}

/// The stored forward-address field: the address itself, or the sentinel.
pub open spec fn next_field(n: Option<Seq<char>>) -> Seq<char> {
    match n {
        Some(u) => u,
        None => seq!['N', 'O'],
    }
}

/// A page the flat record encoding can carry faithfully: no field holds a
/// delimiter, image addresses also avoid the image-list separator and
/// there is at least one of them, and a forward address never spells the
/// sentinel.
pub open spec fn storable(p: PageView) -> bool {
    &&& no_delims(p.title)
    &&& no_delims(p.url)
    &&& no_delims(p.text)
    &&& p.imgs.len() > 0
    &&& forall|k: int| 0 <= k < p.imgs.len() ==> no_delims(#[trigger] p.imgs[k]) && no_bar(
        p.imgs[k],
    )
    &&& (p.next matches Some(u) ==> no_delims(u) && u != seq!['N', 'O'])
}

/// A joined image list holds no delimiter character.
proof fn lemma_join_imgs_clean(xs: Seq<Seq<char>>)
    requires
        forall|k: int| 0 <= k < xs.len() ==> no_delims(#[trigger] xs[k]),
    ensures
        no_delims(join_char(xs, '|')),
    decreases xs.len(),
{
    if xs.len() > 1 {
        assert(forall|k: int| 0 <= k < xs.drop_last().len() ==> no_delims(
            #[trigger] xs.drop_last()[k],
        ));
        lemma_join_imgs_clean(xs.drop_last());
        assert(xs.last() == xs[xs.len() - 1]);
    } else if xs.len() == 1 {
        assert(xs[0] == xs.last());
    }
}

/// Splitting a joined image list at its separator restores the list.
proof fn lemma_split_join_imgs(xs: Seq<Seq<char>>)
    requires
        xs.len() >= 1,
        forall|k: int| 0 <= k < xs.len() ==> no_bar(#[trigger] xs[k]),
    ensures
        crate::text::split_pat_spec(join_char(xs, '|'), seq!['|']) == xs,
    decreases xs.len(),
{
    if xs.len() == 1 {
        crate::text::lemma_split_no_sep(xs[0], '|');
        assert(seq![xs[0]] =~= xs);
    } else {
        assert(forall|k: int| 0 <= k < xs.drop_last().len() ==> no_bar(
            #[trigger] xs.drop_last()[k],
        ));
        lemma_split_join_imgs(xs.drop_last());
        crate::text::lemma_split_concat(join_char(xs.drop_last(), '|'), xs.last(), '|');
        assert(xs.last() == xs[xs.len() - 1]);
        crate::text::lemma_split_no_sep(xs.last(), '|');
        assert(xs.drop_last() + seq![xs.last()] =~= xs);
    }
}

/// Splitting a stored record at the field separator restores its five
/// fields.
proof fn lemma_split_encode_page(p: PageView)
    requires
        storable(p),
    ensures
        crate::text::split_pat_spec(encode_page(p), seq!['\t']) == seq![
            p.title,
            p.url,
            join_char(p.imgs, '|'),
            p.text,
            next_field(p.next),
        ],
{
    let tb = seq!['\t'];
    let ji = join_char(p.imgs, '|');
    let nf = next_field(p.next);
    assert(forall|k: int| 0 <= k < p.imgs.len() ==> no_delims(#[trigger] p.imgs[k]));
    lemma_join_imgs_clean(p.imgs);
    let r4 = p.text + tb + nf;
    let r3 = ji + tb + r4;
    let r2 = p.url + tb + r3;
    assert(encode_page(p) =~= p.title + tb + r2);
    crate::text::lemma_split_concat(p.title, r2, '\t');
    crate::text::lemma_split_no_sep(p.title, '\t');
    crate::text::lemma_split_concat(p.url, r3, '\t');
    crate::text::lemma_split_no_sep(p.url, '\t');
    crate::text::lemma_split_concat(ji, r4, '\t');
    crate::text::lemma_split_no_sep(ji, '\t');
    crate::text::lemma_split_concat(p.text, nf, '\t');
    crate::text::lemma_split_no_sep(p.text, '\t');
    assert(no_delims(nf)) by {
        if p.next is None {
            assert(forall|i: int|
                0 <= i < nf.len() ==> nf[i] != '\t' && nf[i] != '\n');
        }
    }
    crate::text::lemma_split_no_sep(nf, '\t');
    assert(seq![p.title] + (seq![p.url] + (seq![ji] + (seq![p.text] + seq![nf]))) =~~= seq![
        p.title,
        p.url,
        ji,
        p.text,
        nf,
    ]);
}

/// A stored record parses back to exactly the page it was written from.
proof fn lemma_parse_record_inverse(p: PageView, i: int)
    requires
        storable(p),
        p.idx == i,
    ensures
        parse_record(encode_page(p), i) == Some(p),
{
    lemma_split_encode_page(p);
    lemma_split_join_imgs(p.imgs);
    let fields = crate::text::split_pat_spec(encode_page(p), seq!['\t']);
    assert(fields[2] == join_char(p.imgs, '|'));
    match p.next {
        Some(u) => {
            assert(fields[4] == u);
        },
        None => {
            assert(fields[4] == seq!['N', 'O']);
        },
    }
    assert(parse_record(encode_page(p), i)->0 =~= p);
}

/// A stored record holds no record separator.
proof fn lemma_encode_page_no_newline(p: PageView)
    requires
        storable(p),
    ensures
        forall|i: int| 0 <= i < encode_page(p).len() ==> encode_page(p)[i] != '\n',
{
    lemma_join_imgs_clean(p.imgs);
    let s = encode_page(p);
    assert forall|i: int| 0 <= i < s.len() implies s[i] != '\n' by {
        let tb = seq!['\t'];
        let ji = join_char(p.imgs, '|');
        let nf = next_field(p.next);
        assert(no_delims(nf)) by {
            if p.next is None {
                assert(forall|q: int|
                    0 <= q < nf.len() ==> nf[q] != '\t' && nf[q] != '\n');
            }
        }
        assert(s == p.title + tb + p.url + tb + ji + tb + p.text + tb + nf);
    }
}

/// Splitting a stored chain at the record separator restores one line per
/// page, in order.
proof fn lemma_split_encode_chain(c: Seq<PageView>)
    requires
        c.len() >= 1,
        forall|k: int| 0 <= k < c.len() ==> storable(#[trigger] c[k]),
    ensures
        crate::text::split_pat_spec(encode_chain(c), seq!['\n']) == c.map_values(
            |p: PageView| encode_page(p),
        ),
    decreases c.len(),
{
    if c.len() == 1 {
        lemma_encode_page_no_newline(c[0]);
        assert(encode_chain(c) == encode_page(c[0]));
        crate::text::lemma_split_no_sep(encode_page(c[0]), '\n');
        assert(seq![encode_page(c[0])] =~~= c.map_values(|p: PageView| encode_page(p)));
    } else {
        assert(forall|k: int| 0 <= k < c.drop_last().len() ==> storable(
            #[trigger] c.drop_last()[k],
        ));
        lemma_split_encode_chain(c.drop_last());
        crate::text::lemma_split_concat(encode_chain(c.drop_last()), encode_page(c.last()), '\n');
        assert(c.last() == c[c.len() - 1]);
        lemma_encode_page_no_newline(c.last());
        crate::text::lemma_split_no_sep(encode_page(c.last()), '\n');
        assert(c.drop_last().map_values(|p: PageView| encode_page(p)) + seq![
            encode_page(c.last()),
        ] =~~= c.map_values(|p: PageView| encode_page(p)));
    }
}

/// The stored lines of a chain parse back to exactly its pages.
proof fn lemma_parse_records_inverse(c: Seq<PageView>)
    requires
        indexed(c),
        forall|k: int| 0 <= k < c.len() ==> storable(#[trigger] c[k]),
    ensures
        parse_records(c.map_values(|p: PageView| encode_page(p))) == Some(c),
    decreases c.len(),
{
    let lines = c.map_values(|p: PageView| encode_page(p));
    if c.len() == 0 {
        assert(parse_records(lines) =~~= Some(c)) by {
            assert(lines.len() == 0);
        }
    } else {
        assert(forall|k: int| 0 <= k < c.drop_last().len() ==> storable(
            #[trigger] c.drop_last()[k],
        ));
        assert(indexed(c.drop_last())) by {
            assert(forall|k: int| 0 <= k < c.drop_last().len() ==> (#[trigger] c.drop_last()[k])
                == c[k]);
        }
        lemma_parse_records_inverse(c.drop_last());
        assert(lines.drop_last() =~= c.drop_last().map_values(|p: PageView| encode_page(p)));
        assert(lines.last() == encode_page(c.last()));
        assert(c.last() == c[c.len() - 1]);
        lemma_parse_record_inverse(c.last(), c.len() - 1);
        let rec0 = parse_records(lines.drop_last())->0;
        assert(parse_records(lines) == Some(rec0.push(c.last())));
        assert(c.drop_last().push(c.last()) =~= c);
    }
}

/// Re-appending a chain that already satisfies the forward-link invariant
/// rebuilds it unchanged: the repair that each append performs writes the
/// link that is already there.
pub proof fn lemma_refold_linked_chain(c: Seq<PageView>)
    requires
        linked(c),
    ensures
        append_pages(Seq::empty(), c) == c,
    decreases c.len(),
{
    if c.len() > 0 {
        let d = c.drop_last();
        assert(linked(d)) by {
            assert(forall|i: int| 0 <= i < d.len() ==> #[trigger] d[i] == c[i]);
            assert(forall|i: int|
                0 <= i < d.len() - 1 ==> (#[trigger] d[i]).next == Some(d[i + 1].url));
        }
        lemma_refold_linked_chain(d);
        lemma_append_pages_last(Seq::empty(), d, c.last());
        assert(d.push(c.last()) =~= c);
        if d.len() == 0 {
            assert(append_page(d, c.last()) =~= c);
        } else {
            assert(c[d.len() - 1].next == Some(c[d.len() as int].url));
            assert(patch_next(d.last(), c.last().url) =~= d.last());
            assert(d.update(d.len() - 1, d.last()) =~= d);
            assert(append_page(d, c.last()) =~= c);
        }
    }
}

/// Law (stored chains read back unchanged): a chain whose pages the
/// encoding can carry faithfully, once written by `encode`, is exactly
/// what `decode` reconstructs — its lines parse back to the same pages,
/// and re-appending them rebuilds the same chain. With the contracts of
/// `encode` and `decode`, decoding an encoded chain yields it unchanged.
pub proof fn lemma_decode_reads_back_encode(c: Seq<PageView>)
    requires
        c.len() >= 1,
        linked(c),
        indexed(c),
        forall|k: int| 0 <= k < c.len() ==> storable(#[trigger] c[k]),
    ensures
        parse_records(crate::text::split_pat_spec(encode_chain(c), seq!['\n'])) == Some(c),
        append_pages(Seq::empty(), c) == c,
{
    lemma_split_encode_chain(c);
    lemma_parse_records_inverse(c);
    lemma_refold_linked_chain(c);
}

} // verus!
