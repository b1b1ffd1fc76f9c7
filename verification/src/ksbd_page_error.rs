//! The errors a page fetch can end in. Each is fatal to the fetch step
//! that raised it and is never retried; the walk that contains the step
//! simply ends.

use vstd::prelude::*;

verus! {

/// Why a page fetch failed: the transport failed, the content image could
/// not be decoded, or the content area held no image at all. Each variant
/// carries the address concerned; the first two also carry the underlying
/// failure rendered as text.
#[derive(Debug, Clone, PartialEq, Eq)]
pub enum GetPageError {
    RequestErr(String, String),
    PageImgErr(String, String),
    NoImg(String),
}

impl GetPageError {
    /// The error for a content area with no image.
    pub fn no_img(url: &str) -> (r: GetPageError)
        ensures
            r matches GetPageError::NoImg(u) && u@ == url@,
    {
        GetPageError::NoImg(String::from_str(url))
    }

    /// The error for a failed retrieval, with the transport's own message.
    pub fn req_err(url: &str, err: String) -> (r: GetPageError)
        ensures
            r matches GetPageError::RequestErr(u, e) && u@ == url@ && e == err,
    {
        GetPageError::RequestErr(String::from_str(url), err)
    }

    /// The error for undecodable image bytes, with the decoder's own
    /// message.
    pub fn img_err(url: &str, err: String) -> (r: GetPageError)
        ensures
            r matches GetPageError::PageImgErr(u, e) && u@ == url@ && e == err,
    {
        GetPageError::PageImgErr(String::from_str(url), err)
    }

    /// What the error reads as.
    pub open spec fn message_spec(&self) -> Seq<char> {
        match self {
            GetPageError::RequestErr(url, err) => "Failed to get url ("@ + url@ + "): "@ + err@,
            GetPageError::PageImgErr(url, err) => "Failed to get img ("@ + url@ + "): "@ + err@,
            GetPageError::NoImg(url) => "No img ("@ + url@ + ")"@,
        }
    }

    /// Renders the error as text.
    pub fn message(&self) -> (r: String)
        ensures
            r@ == self.message_spec(),
    {
        match self {
            GetPageError::RequestErr(url, err) => {
                let mut m = String::from_str("Failed to get url (");
                m.append(url.as_str());
                m.append("): ");
                m.append(err.as_str());
                m
            },
            GetPageError::PageImgErr(url, err) => {
                let mut m = String::from_str("Failed to get img (");
                m.append(url.as_str());
                m.append("): ");
                m.append(err.as_str());
                m
            },
            GetPageError::NoImg(url) => {
                let mut m = String::from_str("No img (");
                m.append(url.as_str());
                m.append(")");
                m
            },
        }
    }
}

} // verus!
