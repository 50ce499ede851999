//! Parsing rules for entry sources: which files qualify as entries, how a
//! permalink is derived from a filename, and how a title is read off the
//! first line of raw markdown.
use vstd::prelude::*;
use vstd::string::StrSliceExecFns;
use vstd::string::StringExecFns;

use crate::errors::RenderError;
use crate::highlight::highlight_source_code;
use crate::highlight::highlighted_doc;
use crate::highlight::pre_spec;
use crate::highlight::tokens_spec;
use crate::highlight::RewriteOutcome;
use crate::bytes::contains_byte;
use crate::bytes::drop_leading;
use crate::bytes::drop_leading_spec;
use crate::bytes::ends_with;
use crate::bytes::first_line_end;
use crate::bytes::line_len;
use crate::bytes::sub_vec;
use crate::bytes::trim;
use crate::bytes::trim_spec;
use crate::lits::marker_suffix;
use crate::lits::marker_suffix_bytes;
use crate::lits::qualify_suffix;
use crate::lits::qualify_suffix_bytes;

verus! {

/// What pulldown-cmark renders for a markdown text, with this crate's fixed
/// extension set; it depends on the text alone.
pub uninterp spec fn markdown_html_of(md: Seq<u8>) -> Seq<u8>;

/// Relies on pulldown-cmark's `Parser::new_ext` and `html::push_html`, with
/// tables, strikethrough, footnotes, task lists and smart punctuation
/// enabled.
#[verifier::external_body]
fn markdown_to_html_raw(md: &[u8]) -> (r: Vec<u8>)
    ensures
        r@ == markdown_html_of(md@),
{
    let text = String::from_utf8_lossy(md);
    let mut options = pulldown_cmark::Options::empty();
    options.insert(pulldown_cmark::Options::ENABLE_STRIKETHROUGH);
    options.insert(pulldown_cmark::Options::ENABLE_TABLES);
    options.insert(pulldown_cmark::Options::ENABLE_SMART_PUNCTUATION);
    options.insert(pulldown_cmark::Options::ENABLE_FOOTNOTES);
    options.insert(pulldown_cmark::Options::ENABLE_TASKLISTS);
    let parser = pulldown_cmark::Parser::new_ext(text.as_ref(), options);
    let mut out = String::new();
    pulldown_cmark::html::push_html(&mut out, parser);
    out.into_bytes()
}

pub struct ParserUtils;

impl ParserUtils {
    /// The permalink of a filename: the entry marker suffix stripped from
    /// its end, once; a name not ending in the marker is kept as it is.
    pub open spec fn permalink_of(filename: Seq<u8>) -> Seq<u8> {
        if marker_suffix().len() <= filename.len() && filename.skip(
            filename.len() - marker_suffix().len(),
        ) == marker_suffix() {
            filename.take(filename.len() - marker_suffix().len())
        } else {
            filename
        }
    }

    /// A filename names an entry exactly when it ends with the marker.
    pub open spec fn spec_qualifies(filename: Seq<u8>) -> bool {
        qualify_suffix().len() <= filename.len() && filename.skip(
            filename.len() - qualify_suffix().len(),
        ) == qualify_suffix()
    }

    /// The title carried by raw markdown: the first line with its heading
    /// marker — the leading run of `#` — removed exactly once, and
    /// surrounding whitespace trimmed; absent when the first line carries
    /// no heading marker.
    pub open spec fn title_of(raw: Seq<u8>) -> Option<Seq<u8>> {
        let line = raw.take(line_len(raw));
        if line.contains(35u8) {
            Some(trim_spec(drop_leading_spec(trim_spec(line), 35)))
        } else {
            None
        }
    }

    /// Derive the permalink for a source filename.
    pub fn derive_permalink(filename: &[u8]) -> (r: Vec<u8>)
        ensures
            r@ == Self::permalink_of(filename@),
    {
        let marker = marker_suffix_bytes();
        if ends_with(filename, marker) {
            let r = sub_vec(filename, 0, filename.len() - marker.len());
            proof {
                assert(r@ =~= filename@.take(filename@.len() - marker_suffix().len()));
            }
            r
        } else {
            let r = sub_vec(filename, 0, filename.len());
            proof {
                assert(r@ =~= filename@);
            }
            r
        }
    }

    /// Does this filename qualify as a blog entry?
    pub fn qualifies(filename: &[u8]) -> (r: bool)
        ensures
            r == Self::spec_qualifies(filename@),
    {
        ends_with(filename, qualify_suffix_bytes())
    }

    /// Extract the title from raw markdown, if its first line holds a
    /// heading marker.
    pub fn extract_title(raw: &[u8]) -> (r: Option<Vec<u8>>)
        ensures
            (r is Some) == (Self::title_of(raw@) is Some),
            r matches Some(t) ==> Self::title_of(raw@) matches Some(ts) && t@ == ts,
    {
        let end = first_line_end(raw);
        let line = sub_vec(raw, 0, end);
        proof {
            assert(line@ =~= raw@.take(line_len(raw@)));
        }
        if contains_byte(line.as_slice(), 35) {
            let trimmed = trim(line.as_slice());
            let stripped = drop_leading(trimmed.as_slice(), 35);
            let t = trim(stripped.as_slice());
            Some(t)
        } else {
            None
        }
    }

    /// Render raw markdown to HTML and highlight its code elements.  On
    /// success the outcome's document is the highlighted rendering of the
    /// markdown, with one replacement per code element, in document order,
    /// and at most one grammar warning per replacement.  Markdown without
    /// code elements always succeeds.
    pub fn parse_markdown_to_html(
        raw_markdown: &[u8],
        set: &syntect::parsing::SyntaxSet,
        theme: &syntect::highlighting::Theme,
    ) -> (r: Result<RewriteOutcome, RenderError>)
        ensures
            r matches Ok(o) ==> o.replacements@.len() == tokens_spec(
                pre_spec(markdown_html_of(raw_markdown@)),
            ).len() && o.html@ == highlighted_doc(
                markdown_html_of(raw_markdown@),
                o.replacements.deep_view(),
            ) && o.warnings@.len() <= o.replacements@.len(),
            tokens_spec(pre_spec(markdown_html_of(raw_markdown@))).len() == 0 ==> r is Ok,
    {
        let html = markdown_to_html_raw(raw_markdown);
        highlight_source_code(html.as_slice(), set, theme)
    }

    /// `url` and `path` joined by exactly one slash at the boundary.
    pub open spec fn joined_url(url: Seq<char>, path: Seq<char>) -> Seq<char> {
        if url.len() > 0 && url[url.len() - 1] == '/' {
            url + path
        } else {
            url + seq!['/'] + path
        }
    }

    /// Join a base URL and a path, avoiding a doubled or missing slash.
    pub fn join_url_path(url: &str, path: &str) -> (r: String)
        ensures
            r@ == Self::joined_url(url@, path@),
    {
        let n = url.unicode_len();
        let mut out = String::from_str(url);
        if n == 0 || url.get_char(n - 1) != '/' {
            out.append("/");
            proof {
                reveal_strlit("/");
                assert("/"@ =~= seq!['/']);
            }
        }
        out.append(path);
        out
    }
}

} // verus!
