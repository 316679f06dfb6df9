//! Markdown to HTML, through comrak.
use vstd::prelude::*;

verus! {

/// The HTML that comrak renders, with its default options, for a markdown text.
pub uninterp spec fn markdown_html(md: Seq<char>) -> Seq<char>;

/// Relies on `comrak::markdown_to_html` with `ComrakOptions::default()`: CommonMark
/// without extensions, raw HTML left out of the output. The result depends on the
/// text alone.
#[verifier::external_body]
pub(crate) fn render_markdown(md: &str) -> (r: String)
    ensures
        r@ == markdown_html(md@),
{
    comrak::markdown_to_html(md, &comrak::ComrakOptions::default())
}

} // verus!
