//! Which external links the application agrees to open: `http` or `https` links to
//! github.com.
use vstd::prelude::*;

use crate::text::{eq_ignore_case, str_eq, str_eq_ignore_case};

verus! {

/// What `url::Url::parse` gives for a text: `None` when it is not an absolute URL,
/// else the URL's scheme and its host (`host_str`).
pub uninterp spec fn parsed_url(s: Seq<char>) -> Option<(Seq<char>, Option<Seq<char>>)>;

/// The characters of a parsed URL's scheme and host.
pub open spec fn parts_view(p: Option<(String, Option<String>)>) -> Option<
    (Seq<char>, Option<Seq<char>>),
> {
    match p {
        Some((scheme, host)) => Some(
            (
                scheme@,
                match host {
                    Some(h) => Some(h@),
                    None => None,
                },
            ),
        ),
        None => None,
    }
}

/// url's `Url::parse`, keeping the scheme (`Url::scheme`) and the host
/// (`Url::host_str`). Trusted: the result is `parsed_url` of the text; the
/// parser itself (the WHATWG URL standard) is not restated.
#[verifier::external_body]
fn parse_url(s: &str) -> (r: Option<(String, Option<String>)>)
    ensures
        parts_view(r) == parsed_url(s@),
{
    match url::Url::parse(s) {
        Ok(u) => Some(
            (
                u.scheme().to_string(),
                match u.host_str() {
                    Some(h) => Some(h.to_string()),
                    None => None,
                },
            ),
        ),
        Err(_) => None,
    }
}

/// A parsed link may be opened: its scheme is `https` or `http` and its host is
/// `github.com`, without regard to ASCII case.
pub open spec fn allowed_link(p: Option<(Seq<char>, Option<Seq<char>>)>) -> bool {
    match p {
        Some((scheme, host)) => (scheme == "https"@ || scheme == "http"@) && (host matches Some(h)
            && eq_ignore_case(h, "github.com"@)),
        None => false,
    }
}

/// Whether a parsed link (its scheme and host) may be opened.
pub fn is_allowed_link(parts: &Option<(String, Option<String>)>) -> (r: bool)
    ensures
        r == allowed_link(parts_view(*parts)),
{
    match parts {
        Some((scheme, host)) => {
            let web = str_eq(scheme.as_str(), "https") || str_eq(scheme.as_str(), "http");
            if !web {
                return false;
            }
            match host {
                Some(h) => str_eq_ignore_case(h.as_str(), "github.com"),
                None => false,
            }
        },
        None => false,
    }
}

/// Whether the external link `url` may be opened.
pub fn may_open_external_url(url: &str) -> (r: bool)
    ensures
        r == allowed_link(parsed_url(url@)),
{
    let parts = parse_url(url);
    is_allowed_link(&parts)
}

} // verus!
