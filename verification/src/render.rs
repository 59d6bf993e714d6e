//! Markdown rendering, delegated to the `pulldown_cmark` parser.
//!
//! The conversion is deterministic: the produced HTML depends on the source
//! text alone, which `md_html_of` names. Math spans (`$...$` inline,
//! `$$...$$` display) are emitted as embedded `<span class="math ...">`
//! markup holding the expression source, so a page renders even when an
//! expression cannot be typeset further.

use vstd::prelude::*;

verus! {

/// The HTML that the Markdown conversion yields for a source text, with
/// tables, footnotes, strikethrough, task lists, smart punctuation and math
/// spans enabled.
pub uninterp spec fn md_html_of(s: Seq<char>) -> Seq<char>;

/// Relies on `pulldown_cmark::Parser::new_ext` and
/// `pulldown_cmark::html::push_html`: parsing is total over arbitrary input
/// and the rendered HTML depends on the source text and the chosen options
/// alone. Raw HTML in the source passes through unescaped.
#[verifier::external_body]
pub fn markdown_to_html(text: &str) -> (r: String)
    ensures
        r@ == md_html_of(text@),
{
    let mut options = pulldown_cmark::Options::empty();
    options.insert(pulldown_cmark::Options::ENABLE_TABLES);
    options.insert(pulldown_cmark::Options::ENABLE_FOOTNOTES);
    options.insert(pulldown_cmark::Options::ENABLE_STRIKETHROUGH);
    options.insert(pulldown_cmark::Options::ENABLE_TASKLISTS);
    options.insert(pulldown_cmark::Options::ENABLE_SMART_PUNCTUATION);
    options.insert(pulldown_cmark::Options::ENABLE_MATH);
    let parser = pulldown_cmark::Parser::new_ext(text, options);
    let mut out = String::new();
    pulldown_cmark::html::push_html(&mut out, parser);
    out
}

} // verus!
