//! A page prepared for delivery: escapes read back, title and body split
//! into presentable pieces, image references turned into local file names.

use crate::ksbd_page::{KsbdPage, PageView};
use crate::text::{
    dec_rep, dec_string, str_chars, string_from_chars, split_pat, split_pat_spec, trim_chars,
    trim_spec, unescape_chars, unescape_seq, untab_chars, untab_seq,
};
use vstd::prelude::*;

verus! {

/// The escaped paragraph separator that the fetcher writes between body
/// text blocks.
pub open spec fn block_sep() -> Seq<char> {
    seq!['%', '0', 'D', '%', '0', 'A']
}

/// A stored title read back for presentation: escapes undone, surrounding
/// whitespace removed.
pub open spec fn unescaped_title(t: Seq<char>) -> Seq<char> {
    trim_spec(unescape_seq(t))
}

/// The blocks that remain after dropping empty ones.
pub open spec fn nonempty_blocks(bs: Seq<Seq<char>>) -> Seq<Seq<char>>
    decreases bs.len(),
{
    if bs.len() == 0 {
        Seq::empty()
    } else {
        nonempty_blocks(bs.drop_last()) + (if bs.last().len() > 0 {
            seq![bs.last()]
        } else {
            Seq::<Seq<char>>::empty()
        })
    }
}

/// A stored body read back for presentation: tab escapes undone, split at
/// the escaped paragraph separators, each piece trimmed, empty pieces
/// dropped.
pub open spec fn text_blocks(t: Seq<char>) -> Seq<Seq<char>> {
    nonempty_blocks(
        split_pat_spec(untab_seq(t), block_sep()).map_values(|b: Seq<char>| trim_spec(b)),
    )
}

/// The local file name an image of page `idx` is stored under, keyed by
/// the page index and the image's position in the page.
pub open spec fn img_file_name(data_path: Seq<char>, idx: int, k: int) -> Seq<char> {
    data_path + "/"@ + dec_rep(idx) + "-"@ + dec_rep(k) + ".png"@
}

/// Mathematical picture of a page prepared for delivery.
pub struct SendView {
    pub idx: int,
    pub title: Option<Seq<char>>,
    pub imgs: Seq<Seq<char>>,
    pub text: Seq<Seq<char>>,
    pub is_new: bool,
    pub has_next: bool,
}

/// What preparing page `p` for delivery yields.
pub open spec fn send_of(p: PageView, is_new: bool) -> SendView {
    SendView {
        idx: p.idx,
        title: if unescaped_title(p.title).len() == 0 {
            None
        } else {
            Some(unescaped_title(p.title))
        },
        imgs: p.imgs,
        text: text_blocks(p.text),
        is_new,
        has_next: p.next is Some,
    }
}

/// A page prepared for delivery to one chat.
#[derive(Debug, Clone, PartialEq, Eq)]
pub struct PageToSend {
    pub idx: usize,
    pub title: Option<String>,
    pub imgs: Vec<String>,
    pub text: Vec<String>,
    pub is_new: bool,
    pub has_next: bool,
}

impl View for PageToSend {
    type V = SendView;

    open spec fn view(&self) -> SendView {
        SendView {
            idx: self.idx as int,
            title: match self.title {
                Some(t) => Some(t@),
                None => None,
            },
            imgs: self.imgs.deep_view(),
            text: self.text.deep_view(),
            is_new: self.is_new,
            has_next: self.has_next,
        }
    }
}

impl PageToSend {
    fn new(p: KsbdPage, is_new: bool) -> (r: PageToSend)
        ensures
            r@ == send_of(p@, is_new),
    {
        let tc = str_chars(p.title.as_str());
        let unescaped = unescape_chars(tc.as_slice());
        let trimmed = trim_chars(unescaped.as_slice());
        let title = if trimmed.len() == 0 {
            None
        } else {
            Some(string_from_chars(trimmed.as_slice()))
        };

        let body = str_chars(p.text.as_str());
        let untabbed = untab_chars(body.as_slice());
        let sep: Vec<char> = vec!['%', '0', 'D', '%', '0', 'A'];
        let raw = split_pat(untabbed.as_slice(), sep.as_slice());
        let ghost mapped = raw.deep_view().map_values(|b: Seq<char>| trim_spec(b));
        let mut blocks: Vec<String> = Vec::new();
        let n = raw.len();
        let mut i: usize = 0;
        proof {
            assert(mapped.take(0) =~= Seq::<Seq<char>>::empty());
        }
        while i < n
            invariant
                i <= n,
                n == raw@.len(),
                mapped == raw.deep_view().map_values(|b: Seq<char>| trim_spec(b)),
                blocks.deep_view() == nonempty_blocks(mapped.take(i as int)),
            decreases n - i,
        {
            let ghost before = blocks.deep_view();
            let piece = trim_chars(raw[i].as_slice());
            proof {
                assert(mapped.take(i + 1).drop_last() =~= mapped.take(i as int));
                assert(mapped.take(i + 1).last() == trim_spec(raw.deep_view()[i as int]));
                assert(raw@[i as int].deep_view() == raw.deep_view()[i as int]);
                assert(raw@[i as int].deep_view() =~= raw@[i as int]@);
            }
            if piece.len() > 0 {
                blocks.push(string_from_chars(piece.as_slice()));
                proof {
                    assert(blocks.deep_view() =~~= before.push(trim_spec(
                        raw.deep_view()[i as int],
                    )));
                    assert(before.push(trim_spec(raw.deep_view()[i as int])) =~= before + seq![
                        mapped.take(i + 1).last(),
                    ]);
                }
            } else {
                proof {
                    assert(blocks.deep_view() =~= before + Seq::<Seq<char>>::empty());
                }
            }
            i = i + 1;
        }
        proof {
            assert(mapped.take(n as int) =~= mapped);
        }

        let has_next = p.next.is_some();
        PageToSend { idx: p.idx, title, imgs: p.imgs, text: blocks, is_new, has_next }
    }

    /// Prepares a freshly discovered page for delivery.
    pub fn fresh_page(p: KsbdPage) -> (r: PageToSend)
        ensures
            r@ == send_of(p@, true),
    {
        PageToSend::new(p, true)
    }

    /// Prepares an already archived page for delivery.
    pub fn old_page(p: KsbdPage) -> (r: PageToSend)
        ensures
            r@ == send_of(p@, false),
    {
        PageToSend::new(p, false)
    }

    /// The local file names of this page's stored images, one per image
    /// reference, under the given data directory.
    pub fn img_files(&self, data_path: &str) -> (r: Vec<String>)
        ensures
            r.deep_view().len() == self@.imgs.len(),
            forall|k: int|
                0 <= k < r.deep_view().len() ==> r.deep_view()[k] == img_file_name(
                    data_path@,
                    self@.idx,
                    k,
                ),
    {
        let n = self.imgs.len();
        let mut r: Vec<String> = Vec::new();
        let mut k: usize = 0;
        while k < n
            invariant
                k <= n,
                n == self.imgs@.len(),
                r@.len() == k,
                forall|q: int|
                    0 <= q < k ==> r.deep_view()[q] == img_file_name(
                        data_path@,
                        self.idx as int,
                        q,
                    ),
            decreases n - k,
        {
            let mut f = String::from_str(data_path);
            f.append("/");
            let idx_s = dec_string(self.idx);
            f.append(idx_s.as_str());
            f.append("-");
            let k_s = dec_string(k);
            f.append(k_s.as_str());
            f.append(".png");
            let ghost r0 = r.deep_view();
            proof {
                assert(f@ == img_file_name(data_path@, self.idx as int, k as int));
            }
            r.push(f);
            k = k + 1;
            proof {
                assert(r.deep_view() =~~= r0.push(img_file_name(
                    data_path@,
                    self.idx as int,
                    k - 1,
                )));
            }
        }
        r
    }
}

} // verus!
