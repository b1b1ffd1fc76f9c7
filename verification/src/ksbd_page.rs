use vstd::prelude::*;

verus! {

/// Mathematical picture of a page record: every field as a spec value.
#[verifier::ext_equal]
pub struct PageView {
    pub idx: int,
    pub title: Seq<char>,
    pub url: Seq<char>,
    pub imgs: Seq<Seq<char>>,
    pub text: Seq<char>,
    pub next: Option<Seq<char>>,
}

/// One discovered page of the comic chain.
///
/// `idx` is the page's position in the chain, assigned at discovery time.
/// `next` is `None` exactly when, at the time of observation, no successor
/// page was known.
#[derive(Debug, Clone, PartialEq, Eq)]
pub struct KsbdPage {
    pub idx: usize,
    pub title: String,
    pub url: String,
    pub imgs: Vec<String>,
    pub text: String,
    pub next: Option<String>,
}

impl View for KsbdPage {
    type V = PageView;

    open spec fn view(&self) -> PageView {
        PageView {
            idx: self.idx as int,
            title: self.title@,
            url: self.url@,
            imgs: self.imgs.deep_view(),
            text: self.text@,
            next: match self.next {
                Some(u) => Some(u@),
                None => None,
            },
        }
    }
}

/// The pages of a sequence, as their mathematical views.
pub open spec fn page_views(s: Seq<KsbdPage>) -> Seq<PageView> {
    s.map_values(|p: KsbdPage| p@)
}

impl KsbdPage {
    /// An equal copy of the record.
    pub fn duplicate(&self) -> (r: KsbdPage)
        ensures
            r@ == self@,
    {
        KsbdPage {
            idx: self.idx,
            title: self.title.clone(),
            url: self.url.clone(),
            imgs: crate::text::clone_strings(&self.imgs),
            text: self.text.clone(),
            next: match &self.next {
                Some(u) => Some(u.clone()),
                None => None,
            },
        }
    }
}

/// Holds when `s` is free of the two characters the flat record encoding
/// reserves as delimiters: tab (field separator) and newline (record
/// separator).
pub open spec fn no_delims(s: Seq<char>) -> bool {
    forall|i: int| 0 <= i < s.len() ==> s[i] != '\t' && s[i] != '\n'
}

} // verus!
