//! Content Security Policy injection for rendered email viewing: a meta tag
//! that blocks every external resource while keeping inline styles and data
//! URIs, placed into the document head the same way the base tag is.

use crate::html::{insert_into_head, spec_insert_into_head};
use vstd::prelude::*;

verus! {

/// The CSP meta tag that is injected: same-origin images only (so CID
/// images served from the attachment route still load), inline styles and
/// data URIs allowed, everything else refused.
pub open spec fn csp_meta_tag() -> Seq<char> {
    "<meta http-equiv=\"Content-Security-Policy\" content=\"default-src 'none'; img-src 'self' data:; script-src 'none'; style-src 'unsafe-inline'; font-src data:; connect-src 'none'; frame-src 'none'; object-src 'none'; media-src data:; base-uri 'none';\">"@
}

/// Injects the Content Security Policy meta tag into an HTML document's
/// head, creating the head when the document lacks one.
pub fn inject_csp_meta_tag(html: String) -> (r: String)
    ensures
        r@ == spec_insert_into_head(html@, csp_meta_tag()),
{
    insert_into_head(
        html.as_str(),
        "<meta http-equiv=\"Content-Security-Policy\" content=\"default-src 'none'; img-src 'self' data:; script-src 'none'; style-src 'unsafe-inline'; font-src data:; connect-src 'none'; frame-src 'none'; object-src 'none'; media-src data:; base-uri 'none';\">",
    )
}

} // verus!
