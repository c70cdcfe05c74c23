//! The Markdown-to-HTML conversion, an external collaborator of the
//! pipeline: a pure function of the body text, named but not modelled.

use vstd::prelude::*;

verus! {

/// What the Markdown-to-HTML conversion returns for a given body text.
pub uninterp spec fn html_of(body: Seq<u8>) -> Seq<u8>;

/// Relies on markdown::to_html: it turns Markdown text into HTML
/// according to CommonMark, never fails with the default options, and
/// its result depends on the input text alone.
#[verifier::external_body]
pub(crate) fn markdown_to_html(body: &Vec<u8>) -> (r: Vec<u8>)
    ensures
        r@ == html_of(body@),
{
    markdown::to_html(&String::from_utf8_lossy(body)).into_bytes()
}

} // verus!
