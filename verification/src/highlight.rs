//! The syntax-highlighting post-pass over rendered HTML.
//!
//! The document is walked twice in source order.  Scan A collects one
//! language token per code element: the token of a `language-` class
//! attribute when one is present, else the plain-text fallback token.  Scan B
//! re-walks the document and replaces the text of the n-th code element with
//! highlighted markup chosen by the n-th collected token, so the two scans
//! stay aligned by construction: a document whose scan yields N tokens
//! receives exactly N replacements, in document order.  A cleanup pass then
//! repairs known artifacts of the highlighter: stray empty preformatted
//! wrappers, double-nested code openings, and entity encoding.
use vstd::prelude::*;

use crate::bytes::byte_vec1;
use crate::bytes::find_from;
use crate::bytes::idx_of;
use crate::bytes::lemma_idx_of;
use crate::bytes::lemma_matches_skip;
use crate::bytes::lemma_skip_skip;
use crate::bytes::match_at;
use crate::bytes::matches_at;
use crate::bytes::push_all;
use crate::bytes::replace_all;
use crate::bytes::replace_all_spec;
use crate::bytes::sub_vec;
use crate::errors::RenderError;
use crate::lits::amp_entity;
use crate::lits::amp_entity_bytes;
use crate::lits::code_close;
use crate::lits::code_close_bytes;
use crate::lits::empty_pre_block;
use crate::lits::empty_pre_block_bytes;
use crate::lits::lang_open;
use crate::lits::lang_open_bytes;
use crate::lits::lemma_lit_lens;
use crate::lits::nested_code_open;
use crate::lits::nested_code_open_bytes;
use crate::lits::plain_open;
use crate::lits::plain_open_bytes;
use crate::lits::quot_entity;
use crate::lits::quot_entity_bytes;
use crate::lits::txt_token;
use crate::lits::txt_token_bytes;

verus! {

#[verifier::external_type_specification]
#[verifier::external_body]
pub struct ExSyntaxSet(syntect::parsing::SyntaxSet);

#[verifier::external_type_specification]
#[verifier::external_body]
pub struct ExSyntaxReference(syntect::parsing::SyntaxReference);

#[verifier::external_type_specification]
#[verifier::external_body]
pub struct ExTheme(syntect::highlighting::Theme);

/// Relies on syntect's `SyntaxSet::load_defaults_newlines`: the grammar set
/// bundled with the highlighter, compiled for newline-terminated lines.
#[verifier::external_body]
pub fn load_default_syntaxes() -> syntect::parsing::SyntaxSet {
    syntect::parsing::SyntaxSet::load_defaults_newlines()
}

/// Relies on syntect's `ThemeSet::load_defaults`: the bundled theme set,
/// keyed by theme name.
#[verifier::external_body]
pub fn load_theme(name: &str) -> Option<syntect::highlighting::Theme> {
    syntect::highlighting::ThemeSet::load_defaults().themes.get(name).cloned()
}

/// The theme every page is highlighted with.
pub fn default_theme() -> Option<syntect::highlighting::Theme> {
    load_theme("InspiredGitHub")
}

/// Relies on syntect's `SyntaxSet::find_syntax_by_token`: grammar lookup by
/// language token; `None` when the set knows no such token.
#[verifier::external_body]
fn find_syntax<'a>(set: &'a syntect::parsing::SyntaxSet, token: &[u8]) -> Option<
    &'a syntect::parsing::SyntaxReference,
> {
    set.find_syntax_by_token(String::from_utf8_lossy(token).as_ref())
}

/// Relies on syntect's `highlighted_html_for_string`: highlighted markup for
/// one code block; `None` when the engine fails.
#[verifier::external_body]
fn highlight_block(
    code: &[u8],
    set: &syntect::parsing::SyntaxSet,
    syntax: &syntect::parsing::SyntaxReference,
    theme: &syntect::highlighting::Theme,
) -> Option<Vec<u8>> {
    let text = String::from_utf8_lossy(code);
    match syntect::html::highlighted_html_for_string(text.as_ref(), set, syntax, theme) {
        Ok(s) => Some(s.into_bytes()),
        Err(_) => None,
    }
}

/// What html_escape's entity decoding returns; it depends on the text alone.
pub uninterp spec fn decoded_entities_of(s: Seq<u8>) -> Seq<u8>;

/// Relies on html_escape's `decode_html_entities`: HTML entities replaced by
/// the characters they name.
#[verifier::external_body]
fn decode_entities(s: &[u8]) -> (r: Vec<u8>)
    ensures
        r@ == decoded_entities_of(s@),
{
    let text = String::from_utf8_lossy(s);
    let decoded = html_escape::decode_html_entities(text.as_ref());
    decoded.into_owned().into_bytes()
}

/// The code element opening at the front of `s`, if any: its language token,
/// and the start and end of its text content.  The closing tag begins at the
/// content's end.
pub open spec fn elem_at(s: Seq<u8>) -> Option<(Seq<u8>, int, int)> {
    if matches_at(s, lang_open(), 0) {
        match idx_of(s.skip(lang_open().len() as int), seq![34u8]) {
            Some(q0) => {
                let q = lang_open().len() + q0;
                if q + 1 < s.len() && s[q + 1] == 62 {
                    match idx_of(s.skip(q + 2), code_close()) {
                        Some(e0) => Some(
                            (s.subrange(lang_open().len() as int, q as int), q + 2, q + 2 + e0),
                        ),
                        None => None,
                    }
                } else {
                    None
                }
            },
            None => None,
        }
    } else if matches_at(s, plain_open(), 0) {
        match idx_of(s.skip(plain_open().len() as int), code_close()) {
            Some(e0) => Some(
                (txt_token(), plain_open().len() as int, plain_open().len() + e0),
            ),
            None => None,
        }
    } else {
        None
    }
}

/// A recognized element lies within `s`, content after the opening, closer
/// within bounds.
pub proof fn lemma_elem_at_bounds(s: Seq<u8>)
    ensures
        elem_at(s) matches Some(e) ==> 1 <= e.1 <= e.2 && e.2 + code_close().len() <= s.len(),
{
    lemma_lit_lens();
    if matches_at(s, lang_open(), 0) {
        lemma_idx_of(s.skip(lang_open().len() as int), seq![34u8]);
        match idx_of(s.skip(lang_open().len() as int), seq![34u8]) {
            Some(q0) => {
                let q = lang_open().len() + q0;
                if q + 1 < s.len() && s[q + 1] == 62 {
                    lemma_idx_of(s.skip(q + 2), code_close());
                    match idx_of(s.skip(q + 2), code_close()) {
                        Some(e0) => {
                            assert(matches_at(s.skip(q + 2), code_close(), e0));
                        },
                        None => {},
                    }
                }
            },
            None => {},
        }
    } else if matches_at(s, plain_open(), 0) {
        lemma_idx_of(s.skip(plain_open().len() as int), code_close());
        match idx_of(s.skip(plain_open().len() as int), code_close()) {
            Some(e0) => {
                assert(matches_at(s.skip(plain_open().len() as int), code_close(), e0));
            },
            None => {},
        }
    }
}

/// Scan A: the language tokens of all code elements, in document order.
pub open spec fn tokens_spec(s: Seq<u8>) -> Seq<Seq<u8>>
    decreases s.len(),
    via tokens_spec_dec
{
    if s.len() == 0 {
        Seq::empty()
    } else {
        match elem_at(s) {
            Some(e) => seq![e.0] + tokens_spec(s.skip(e.2 + code_close().len())),
            None => tokens_spec(s.skip(1)),
        }
    }
}

#[via_fn]
proof fn tokens_spec_dec(s: Seq<u8>) {
    lemma_elem_at_bounds(s);
}

/// Scan B: the document with the n-th code element's text replaced by
/// `reps[n]`, everything else unchanged.
pub open spec fn rewritten_spec(s: Seq<u8>, reps: Seq<Seq<u8>>) -> Seq<u8>
    decreases s.len(),
    via rewritten_spec_dec
{
    if s.len() == 0 {
        Seq::empty()
    } else {
        match elem_at(s) {
            Some(e) => {
                let rep = if reps.len() > 0 {
                    reps[0]
                } else {
                    Seq::empty()
                };
                let rest = if reps.len() > 0 {
                    reps.skip(1)
                } else {
                    reps
                };
                s.subrange(0, e.1) + rep + code_close() + rewritten_spec(
                    s.skip(e.2 + code_close().len()),
                    rest,
                )
            },
            None => seq![s[0]] + rewritten_spec(s.skip(1), reps),
        }
    }
}

#[via_fn]
proof fn rewritten_spec_dec(s: Seq<u8>, reps: Seq<Seq<u8>>) {
    lemma_elem_at_bounds(s);
}

/// Find the first code element at or after `i`, with absolute positions.
fn find_elem(h: &[u8], i: usize) -> (r: Option<(Vec<u8>, usize, usize)>)
    requires
        i <= h@.len(),
    ensures
        match r {
            Some(e) => elem_at(h@.skip(i as int)) == Some(
                (e.0@, e.1 as int - i as int, e.2 as int - i as int),
            ) && i <= e.1 <= e.2 && e.2 + code_close().len() <= h@.len(),
            None => elem_at(h@.skip(i as int)) is None,
        },
{
    proof {
        lemma_lit_lens();
    }
    let hlen = h.len();
    let lo = lang_open_bytes();
    let po = plain_open_bytes();
    let cc = code_close_bytes();
    let ghost s = h@.skip(i as int);
    if match_at(h, lo, i) {
        proof {
            lemma_matches_skip(h@, lang_open(), i as int, 0);
            assert(i + 22 <= hlen);
        }
        let quote = byte_vec1(34);
        let qr = find_from(h, quote.as_slice(), i + 22);
        match qr {
            Some(q) => {
                proof {
                    lemma_first_match_to_idx(h@, seq![34u8], i + 22, Some(q as int));
                    lemma_skip_skip(h@, i as int, 22);
                    assert(s.skip(22) == h@.skip(i + 22));
                }
                if q + 1 < h.len() && h[q + 1] == 62 {
                    proof {
                        assert(s[q - i + 1] == h@[q + 1]);
                    }
                    let er = find_from(h, cc, q + 2);
                    match er {
                        Some(e) => {
                            proof {
                                lemma_first_match_to_idx(h@, code_close(), q + 2, Some(e as int));
                                lemma_skip_skip(h@, i as int, q + 2 - i);
                                assert(s.skip(q + 2 - i) == h@.skip(q + 2));
                            }
                            let tok = sub_vec(h, i + 22, q);
                            proof {
                                assert(tok@ =~= s.subrange(22, q - i));
                                lemma_elem_at_bounds(s);
                            }
                            Some((tok, q + 2, e))
                        },
                        None => {
                            proof {
                                lemma_first_match_to_idx(h@, code_close(), q + 2, None);
                                lemma_skip_skip(h@, i as int, q + 2 - i);
                            }
                            None
                        },
                    }
                } else {
                    proof {
                        if q - i + 1 < s.len() {
                            assert(s[q - i + 1] == h@[q + 1]);
                        }
                    }
                    None
                }
            },
            None => {
                proof {
                    lemma_first_match_to_idx(h@, seq![34u8], i + 22, None);
                    lemma_skip_skip(h@, i as int, 22);
                }
                None
            },
        }
    } else if match_at(h, po, i) {
        proof {
            lemma_matches_skip(h@, lang_open(), i as int, 0);
            lemma_matches_skip(h@, plain_open(), i as int, 0);
            assert(i + 6 <= hlen);
        }
        let er = find_from(h, cc, i + 6);
        match er {
            Some(e) => {
                proof {
                    lemma_first_match_to_idx(h@, code_close(), i + 6, Some(e as int));
                    lemma_skip_skip(h@, i as int, 6);
                    lemma_elem_at_bounds(s);
                }
                let tok = vstd::slice::slice_to_vec(txt_token_bytes());
                Some((tok, i + 6, e))
            },
            None => {
                proof {
                    lemma_first_match_to_idx(h@, code_close(), i + 6, None);
                    lemma_skip_skip(h@, i as int, 6);
                }
                None
            },
        }
    } else {
        proof {
            lemma_matches_skip(h@, lang_open(), i as int, 0);
            lemma_matches_skip(h@, plain_open(), i as int, 0);
        }
        None
    }
}

/// A first occurrence found from an absolute base is the first occurrence
/// within the suffix that starts there.
proof fn lemma_first_match_to_idx(h: Seq<u8>, n: Seq<u8>, base: int, found: Option<int>)
    requires
        0 <= base <= h.len(),
        match found {
            Some(f) => base <= f && matches_at(h, n, f) && forall|j: int|
                base <= j < f ==> !matches_at(h, n, j),
            None => forall|j: int| base <= j ==> !matches_at(h, n, j),
        },
    ensures
        match found {
            Some(f) => idx_of(h.skip(base), n) == Some(f - base),
            None => idx_of(h.skip(base), n) is None,
        },
{
    lemma_idx_of(h.skip(base), n);
    match found {
        Some(f) => {
            lemma_matches_skip(h, n, base, f - base);
            match idx_of(h.skip(base), n) {
                Some(k) => {
                    lemma_matches_skip(h, n, base, k);
                    if base + k < f {
                        assert(matches_at(h, n, base + k));
                        assert(false);
                    }
                    if base + k > f {
                        assert(matches_at(h.skip(base), n, f - base));
                        assert(false);
                    }
                },
                None => {
                    assert(matches_at(h.skip(base), n, f - base));
                    assert(false);
                },
            }
        },
        None => {
            match idx_of(h.skip(base), n) {
                Some(k) => {
                    lemma_matches_skip(h, n, base, k);
                    assert(false);
                },
                None => {},
            }
        },
    }
}

/// Scan A over the document: collect one token per code element, in order.
pub fn scan_code_tokens(h: &[u8]) -> (r: Vec<Vec<u8>>)
    ensures
        r.deep_view() == tokens_spec(h@),
{
    let mut toks: Vec<Vec<u8>> = Vec::new();
    let mut i: usize = 0;
    proof {
        assert(h@.skip(0) =~= h@);
        assert(toks.deep_view() =~= Seq::<Seq<u8>>::empty());
    }
    while i < h.len()
        invariant
            i <= h@.len(),
            tokens_spec(h@) == toks.deep_view() + tokens_spec(h@.skip(i as int)),
        decreases h@.len() - i,
    {
        let ghost pre_toks = toks.deep_view();
        let ghost suffix = h@.skip(i as int);
        let found = find_elem(h, i);
        match found {
            Some((tok, cstart, cend)) => {
                proof {
                    lemma_lit_lens();
                    lemma_skip_skip(h@, i as int, cend as int - i as int + code_close().len());
                }
                let ghost tokv = tok@;
                let step = cend + code_close_bytes().len();
                toks.push(tok);
                i = step;
                proof {
                    assert(toks.deep_view() =~~= pre_toks.push(tokv));
                    assert(tokens_spec(suffix) == seq![tokv] + tokens_spec(h@.skip(i as int)));
                    assert(pre_toks + (seq![tokv] + tokens_spec(h@.skip(i as int)))
                        =~= pre_toks.push(tokv) + tokens_spec(h@.skip(i as int)));
                }
            },
            None => {
                proof {
                    lemma_skip_skip(h@, i as int, 1);
                    assert(tokens_spec(suffix) == tokens_spec(h@.skip(i + 1)));
                }
                i += 1;
            },
        }
    }
    proof {
        assert(h@.skip(h@.len() as int) =~= Seq::<u8>::empty());
        assert(toks.deep_view() + Seq::<Seq<u8>>::empty() =~= toks.deep_view());
    }
    toks
}

pub struct RewriteOutcome {
    /// The rewritten document.
    pub html: Vec<u8>,
    /// The replacement inserted into each code element, in document order.
    pub replacements: Vec<Vec<u8>>,
    /// The tokens no grammar was found for, each highlighted as plain text.
    pub warnings: Vec<Vec<u8>>,
}

/// Scan B over the document: replace the text of the n-th code element with
/// highlighted markup for the n-th token of scan A.
///
/// On success the outcome holds exactly one replacement per scanned token,
/// applied in document order: this is the alignment between the two scans.
/// A token without a grammar yields at most one warning, so the warnings
/// never outnumber the replacements; a document without code elements
/// always succeeds, with no warning.
#[verifier::rlimit(100)]
pub fn rewrite_code_blocks(
    h: &[u8],
    toks: &Vec<Vec<u8>>,
    set: &syntect::parsing::SyntaxSet,
    theme: &syntect::highlighting::Theme,
) -> (r: Result<RewriteOutcome, RenderError>)
    requires
        toks.deep_view() == tokens_spec(h@),
    ensures
        r matches Ok(o) ==> o.replacements@.len() == tokens_spec(h@).len() && o.html@
            == rewritten_spec(h@, o.replacements.deep_view()) && o.warnings@.len()
            <= o.replacements@.len(),
        tokens_spec(h@).len() == 0 ==> r is Ok,
{
    let mut out: Vec<u8> = Vec::new();
    let mut reps: Vec<Vec<u8>> = Vec::new();
    let mut warns: Vec<Vec<u8>> = Vec::new();
    let mut n: usize = 0;
    let mut i: usize = 0;
    let tok_count = toks.len();
    proof {
        assert(h@.skip(0) =~= h@);
        assert(toks.deep_view().skip(0) =~= toks.deep_view());
        assert(reps.deep_view() =~= Seq::<Seq<u8>>::empty());
        assert forall|x: Seq<Seq<u8>>| #[trigger] rewritten_spec(h@.skip(0), x) == Seq::<
            u8,
        >::empty() + rewritten_spec(h@.skip(0), x) by {
            assert(Seq::<u8>::empty() + rewritten_spec(h@.skip(0), x) =~= rewritten_spec(
                h@.skip(0),
                x,
            ));
        }
    }
    while i < h.len()
        invariant
            i <= h@.len(),
            n == reps@.len(),
            n <= toks@.len(),
            warns@.len() <= n,
            tok_count == toks@.len(),
            toks.deep_view() == tokens_spec(h@),
            toks.deep_view().skip(n as int) == tokens_spec(h@.skip(i as int)),
            forall|x: Seq<Seq<u8>>|
                rewritten_spec(h@, reps.deep_view() + x) == out@ + #[trigger] rewritten_spec(
                    h@.skip(i as int),
                    x,
                ),
        decreases h@.len() - i,
    {
        let ghost i0 = i as int;
        let ghost n0 = n as int;
        let ghost suffix = h@.skip(i as int);
        let ghost pre_out = out@;
        let ghost pre_reps = reps.deep_view();
        let found = find_elem(h, i);
        match found {
            Some((tok_found, cstart, cend)) => {
                proof {
                    lemma_lit_lens();
                    assert(tokens_spec(suffix) == seq![tok_found@] + tokens_spec(
                        suffix.skip(cend as int - i0 + code_close().len()),
                    ));
                    assert(toks.deep_view().skip(n as int).len() >= 1);
                    assert(toks.deep_view().skip(n as int)[0] == tok_found@);
                    assert(toks.deep_view()[n as int] == tok_found@);
                    assert(n < toks@.len());
                }
                let tok = &toks[n];
                let syn = match find_syntax(set, tok.as_slice()) {
                    Some(sr) => sr,
                    None => {
                        let mut w: Vec<u8> = Vec::new();
                        push_all(&mut w, tok.as_slice());
                        warns.push(w);
                        match find_syntax(set, txt_token_bytes()) {
                            Some(sr) => sr,
                            None => {
                                proof {
                                    assert(tokens_spec(h@).len() > 0);
                                }
                                return Err(RenderError::RewriteFailed);
                            },
                        }
                    },
                };
                let content = sub_vec(h, cstart, cend);
                let rep = match highlight_block(content.as_slice(), set, syn, theme) {
                    Some(r) => r,
                    None => {
                        proof {
                            assert(tokens_spec(h@).len() > 0);
                        }
                        return Err(RenderError::RewriteFailed);
                    },
                };
                let ghost repv = rep@;
                let opening = vstd::slice::slice_subrange(h, i, cstart);
                push_all(&mut out, opening);
                push_all(&mut out, rep.as_slice());
                push_all(&mut out, code_close_bytes());
                reps.push(rep);
                let step = cend + code_close_bytes().len();
                i = step;
                proof {
                    assert(n < tok_count);
                }
                n += 1;
                proof {
                    let crs = cstart as int - i0;
                    let cre = cend as int - i0;
                    lemma_skip_skip(h@, i0, cre + code_close().len());
                    assert(suffix.skip(cre + code_close().len()) == h@.skip(i as int));
                    assert(reps.deep_view() =~~= pre_reps.push(repv));
                    assert(suffix.subrange(0, crs) =~= h@.subrange(i0, cstart as int));
                    assert forall|x: Seq<Seq<u8>>|
                        rewritten_spec(h@, reps.deep_view() + x) == out@ + #[trigger]
                            rewritten_spec(h@.skip(i as int), x) by {
                        let x1 = seq![repv] + x;
                        assert(rewritten_spec(h@, pre_reps + x1) == pre_out + rewritten_spec(
                            suffix,
                            x1,
                        ));
                        assert(reps.deep_view() + x =~= pre_reps + x1);
                        assert(x1.len() > 0);
                        assert(x1[0] == repv);
                        assert(x1.skip(1) =~= x);
                        assert(rewritten_spec(suffix, x1) == suffix.subrange(0, crs) + repv
                            + code_close() + rewritten_spec(h@.skip(i as int), x));
                        assert(pre_out + (suffix.subrange(0, crs) + repv + code_close()
                            + rewritten_spec(h@.skip(i as int), x)) =~= out@ + rewritten_spec(
                            h@.skip(i as int),
                            x,
                        ));
                    }
                    assert(toks.deep_view().skip(n0) == seq![tok_found@] + tokens_spec(
                        h@.skip(i as int),
                    ));
                    assert(toks.deep_view().skip(n0 + 1) =~= toks.deep_view().skip(n0).skip(1));
                    assert((seq![tok_found@] + tokens_spec(h@.skip(i as int))).skip(1)
                        =~= tokens_spec(h@.skip(i as int)));
                }
            },
            None => {
                proof {
                    lemma_skip_skip(h@, i as int, 1);
                    assert(tokens_spec(suffix) == tokens_spec(h@.skip(i + 1)));
                }
                out.push(h[i]);
                i += 1;
                proof {
                    assert(suffix[0] == h@[i - 1]);
                    assert forall|x: Seq<Seq<u8>>|
                        rewritten_spec(h@, reps.deep_view() + x) == out@ + #[trigger]
                            rewritten_spec(h@.skip(i as int), x) by {
                        assert(rewritten_spec(h@, pre_reps + x) == pre_out + rewritten_spec(
                            suffix,
                            x,
                        ));
                        assert(rewritten_spec(suffix, x) == seq![suffix[0]] + rewritten_spec(
                            h@.skip(i as int),
                            x,
                        ));
                        assert(pre_out + (seq![suffix[0]] + rewritten_spec(h@.skip(i as int), x))
                            =~= pre_out.push(suffix[0]) + rewritten_spec(h@.skip(i as int), x));
                    }
                }
            },
        }
    }
    proof {
        assert(h@.skip(h@.len() as int) =~= Seq::<u8>::empty());
        assert(tokens_spec(Seq::<u8>::empty()) =~= Seq::<Seq<u8>>::empty());
        assert(toks.deep_view().skip(n as int).len() == 0);
        assert(n == toks.deep_view().len());
        assert(rewritten_spec(h@, reps.deep_view() + Seq::<Seq<u8>>::empty()) == out@
            + rewritten_spec(h@.skip(h@.len() as int), Seq::<Seq<u8>>::empty()));
        assert(reps.deep_view() + Seq::<Seq<u8>>::empty() =~= reps.deep_view());
        assert(out@ + Seq::<u8>::empty() =~= out@);
    }
    Ok(RewriteOutcome { html: out, replacements: reps, warnings: warns })
}

/// The document as scanned: the double-quote entity undone first, so both
/// scans see the same text.
pub open spec fn pre_spec(h: Seq<u8>) -> Seq<u8> {
    replace_all_spec(h, quot_entity(), seq![34u8])
}

/// Cleanup after decoding: normalize the ampersand entity, drop stray empty
/// preformatted wrappers, and unwrap double-nested code openings.
pub open spec fn cleanup_spec(s: Seq<u8>) -> Seq<u8> {
    replace_all_spec(
        replace_all_spec(
            replace_all_spec(s, amp_entity(), seq![38u8]),
            empty_pre_block(),
            Seq::empty(),
        ),
        nested_code_open(),
        plain_open(),
    )
}

/// The whole highlighting pass over a document, given the replacement for
/// each code element.  A document without code elements is left untouched.
pub open spec fn highlighted_doc(h: Seq<u8>, reps: Seq<Seq<u8>>) -> Seq<u8> {
    if tokens_spec(pre_spec(h)).len() == 0 {
        h
    } else {
        cleanup_spec(decoded_entities_of(rewritten_spec(pre_spec(h), reps)))
    }
}

/// Highlight every code element of `html`: scan A collects the tokens,
/// scan B replaces each element's text, a cleanup pass repairs the known
/// artifacts.  The outcome records one replacement per scanned code
/// element, in document order, and at most one warning per replacement
/// (one for each token without a grammar).  A document without code
/// elements is returned unchanged, successfully.
pub fn highlight_source_code(
    html: &[u8],
    set: &syntect::parsing::SyntaxSet,
    theme: &syntect::highlighting::Theme,
) -> (r: Result<RewriteOutcome, RenderError>)
    ensures
        r matches Ok(o) ==> o.replacements@.len() == tokens_spec(pre_spec(html@)).len()
            && o.html@ == highlighted_doc(html@, o.replacements.deep_view())
            && o.warnings@.len() <= o.replacements@.len(),
        tokens_spec(pre_spec(html@)).len() == 0 ==> r is Ok,
{
    proof {
        lemma_lit_lens();
    }
    let quot = quot_entity_bytes();
    let dq = byte_vec1(34);
    let pre = replace_all(html, quot, dq.as_slice());
    let toks = scan_code_tokens(pre.as_slice());
    if toks.len() == 0 {
        let copy = vstd::slice::slice_to_vec(html);
        let reps: Vec<Vec<u8>> = Vec::new();
        let warns: Vec<Vec<u8>> = Vec::new();
        proof {
            assert(reps.deep_view() =~= Seq::<Seq<u8>>::empty());
        }
        return Ok(RewriteOutcome { html: copy, replacements: reps, warnings: warns });
    }
    let rewritten = match rewrite_code_blocks(pre.as_slice(), &toks, set, theme) {
        Ok(o) => o,
        Err(e) => {
            return Err(e);
        },
    };
    let decoded = decode_entities(rewritten.html.as_slice());
    let amp = amp_entity_bytes();
    let ampb = byte_vec1(38);
    let c1 = replace_all(decoded.as_slice(), amp, ampb.as_slice());
    let epb = empty_pre_block_bytes();
    let none: Vec<u8> = Vec::new();
    let c2 = replace_all(c1.as_slice(), epb, none.as_slice());
    let nco = nested_code_open_bytes();
    let po = plain_open_bytes();
    let c3 = replace_all(c2.as_slice(), nco, po);
    Ok(
        RewriteOutcome {
            html: c3,
            replacements: rewritten.replacements,
            warnings: rewritten.warnings,
        },
    )
}

} // verus!
