//! The fixed byte strings the pipeline scans for: the entry-file marker
//! suffix, the HTML shapes of fenced code elements, and the entity and
//! wrapper artifacts repaired after highlighting.
//!
//! Each helper returns the UTF-8 bytes of one literal together with the
//! facts the callers need (its spec-level value, and a length bound where a
//! search needle must not be empty).
use vstd::prelude::*;
use vstd::string::is_ascii;
use vstd::string::is_ascii_spec_bytes;
use vstd::string::StringSliceAdditionalSpecFns;

verus! {

/// Suffix that marks a source file as a blog entry, removed to form the permalink.
pub open spec fn marker_suffix() -> Seq<u8> {
    ".blog.md".spec_bytes()
}

pub fn marker_suffix_bytes() -> (r: &'static [u8])
    ensures
        r@ == marker_suffix(),
        r@.len() == 8,
{
    proof {
        reveal_strlit(".blog.md");
        assert(is_ascii(".blog.md")) by {
            assert(forall|i: int|
                0 <= i < ".blog.md"@.len() ==> '\0' <= #[trigger] ".blog.md"@[i] <= '\u{7f}');
        }
        is_ascii_spec_bytes(".blog.md");
    }
    ".blog.md".as_bytes()
}

/// Suffix a filename must end with to qualify as an entry.
pub open spec fn qualify_suffix() -> Seq<u8> {
    "blog.md".spec_bytes()
}

pub fn qualify_suffix_bytes() -> (r: &'static [u8])
    ensures
        r@ == qualify_suffix(),
        r@.len() == 7,
{
    proof {
        reveal_strlit("blog.md");
        assert(is_ascii("blog.md")) by {
            assert(forall|i: int|
                0 <= i < "blog.md"@.len() ==> '\0' <= #[trigger] "blog.md"@[i] <= '\u{7f}');
        }
        is_ascii_spec_bytes("blog.md");
    }
    "blog.md".as_bytes()
}

/// Opening of a fenced code element that names a language.
pub open spec fn lang_open() -> Seq<u8> {
    "<code class=\"language-".spec_bytes()
}

pub fn lang_open_bytes() -> (r: &'static [u8])
    ensures
        r@ == lang_open(),
        r@.len() == 22,
{
    proof {
        reveal_strlit("<code class=\"language-");
        assert(is_ascii("<code class=\"language-")) by {
            assert(forall|i: int|
                0 <= i < "<code class=\"language-"@.len() ==> '\0'
                    <= #[trigger] "<code class=\"language-"@[i] <= '\u{7f}');
        }
        is_ascii_spec_bytes("<code class=\"language-");
    }
    "<code class=\"language-".as_bytes()
}

/// Opening of a code element that carries no class.
pub open spec fn plain_open() -> Seq<u8> {
    "<code>".spec_bytes()
}

pub fn plain_open_bytes() -> (r: &'static [u8])
    ensures
        r@ == plain_open(),
        r@.len() == 6,
{
    proof {
        reveal_strlit("<code>");
        assert(is_ascii("<code>")) by {
            assert(forall|i: int|
                0 <= i < "<code>"@.len() ==> '\0' <= #[trigger] "<code>"@[i] <= '\u{7f}');
        }
        is_ascii_spec_bytes("<code>");
    }
    "<code>".as_bytes()
}

/// Closing tag of a code element.
pub open spec fn code_close() -> Seq<u8> {
    "</code>".spec_bytes()
}

pub fn code_close_bytes() -> (r: &'static [u8])
    ensures
        r@ == code_close(),
        r@.len() == 7,
{
    proof {
        reveal_strlit("</code>");
        assert(is_ascii("</code>")) by {
            assert(forall|i: int|
                0 <= i < "</code>"@.len() ==> '\0' <= #[trigger] "</code>"@[i] <= '\u{7f}');
        }
        is_ascii_spec_bytes("</code>");
    }
    "</code>".as_bytes()
}

/// The double-quote entity undone before the rewrite pass.
pub open spec fn quot_entity() -> Seq<u8> {
    "&quot;".spec_bytes()
}

pub fn quot_entity_bytes() -> (r: &'static [u8])
    ensures
        r@ == quot_entity(),
        r@.len() == 6,
{
    proof {
        reveal_strlit("&quot;");
        assert(is_ascii("&quot;")) by {
            assert(forall|i: int|
                0 <= i < "&quot;"@.len() ==> '\0' <= #[trigger] "&quot;"@[i] <= '\u{7f}');
        }
        is_ascii_spec_bytes("&quot;");
    }
    "&quot;".as_bytes()
}

/// The ampersand entity normalized after decoding.
pub open spec fn amp_entity() -> Seq<u8> {
    "&amp;".spec_bytes()
}

pub fn amp_entity_bytes() -> (r: &'static [u8])
    ensures
        r@ == amp_entity(),
        r@.len() == 5,
{
    proof {
        reveal_strlit("&amp;");
        assert(is_ascii("&amp;")) by {
            assert(forall|i: int|
                0 <= i < "&amp;"@.len() ==> '\0' <= #[trigger] "&amp;"@[i] <= '\u{7f}');
        }
        is_ascii_spec_bytes("&amp;");
    }
    "&amp;".as_bytes()
}

/// Stray empty preformatted wrapper left behind by the highlighter.
pub open spec fn empty_pre_block() -> Seq<u8> {
    "<pre style=\"background-color:#ffffff;\">\n</pre>".spec_bytes()
}

pub fn empty_pre_block_bytes() -> (r: &'static [u8])
    ensures
        r@ == empty_pre_block(),
        r@.len() >= 1,
{
    proof {
        reveal_strlit("<pre style=\"background-color:#ffffff;\">\n</pre>");
        assert(is_ascii("<pre style=\"background-color:#ffffff;\">\n</pre>")) by {
            assert(forall|i: int|
                0 <= i < "<pre style=\"background-color:#ffffff;\">\n</pre>"@.len() ==> '\0'
                    <= #[trigger] "<pre style=\"background-color:#ffffff;\">\n</pre>"@[i]
                    <= '\u{7f}');
        }
        is_ascii_spec_bytes("<pre style=\"background-color:#ffffff;\">\n</pre>");
    }
    "<pre style=\"background-color:#ffffff;\">\n</pre>".as_bytes()
}

/// Double-nested opening produced when an inline code element is wrapped.
pub open spec fn nested_code_open() -> Seq<u8> {
    "<code><pre style=\"background-color:#ffffff;\">".spec_bytes()
}

pub fn nested_code_open_bytes() -> (r: &'static [u8])
    ensures
        r@ == nested_code_open(),
        r@.len() >= 1,
{
    proof {
        reveal_strlit("<code><pre style=\"background-color:#ffffff;\">");
        assert(is_ascii("<code><pre style=\"background-color:#ffffff;\">")) by {
            assert(forall|i: int|
                0 <= i < "<code><pre style=\"background-color:#ffffff;\">"@.len() ==> '\0'
                    <= #[trigger] "<code><pre style=\"background-color:#ffffff;\">"@[i]
                    <= '\u{7f}');
        }
        is_ascii_spec_bytes("<code><pre style=\"background-color:#ffffff;\">");
    }
    "<code><pre style=\"background-color:#ffffff;\">".as_bytes()
}

/// The fallback plain-text language token.
pub open spec fn txt_token() -> Seq<u8> {
    "txt".spec_bytes()
}

pub fn txt_token_bytes() -> (r: &'static [u8])
    ensures
        r@ == txt_token(),
        r@.len() == 3,
{
    proof {
        reveal_strlit("txt");
        assert(is_ascii("txt")) by {
            assert(forall|i: int|
                0 <= i < "txt"@.len() ==> '\0' <= #[trigger] "txt"@[i] <= '\u{7f}');
        }
        is_ascii_spec_bytes("txt");
    }
    "txt".as_bytes()
}

/// The lengths of the fixed byte strings, for use in spec-level proofs.
pub proof fn lemma_lit_lens()
    ensures
        marker_suffix().len() == 8,
        qualify_suffix().len() == 7,
        lang_open().len() == 22,
        plain_open().len() == 6,
        code_close().len() == 7,
        quot_entity().len() == 6,
        amp_entity().len() == 5,
        empty_pre_block().len() >= 1,
        nested_code_open().len() >= 1,
        txt_token().len() == 3,
{
    reveal_strlit(".blog.md");
    reveal_strlit("blog.md");
    reveal_strlit("<code class=\"language-");
    reveal_strlit("<code>");
    reveal_strlit("</code>");
    reveal_strlit("&quot;");
    reveal_strlit("&amp;");
    reveal_strlit("<pre style=\"background-color:#ffffff;\">\n</pre>");
    reveal_strlit("<code><pre style=\"background-color:#ffffff;\">");
    reveal_strlit("txt");
    assert(is_ascii(".blog.md")) by {
        assert(forall|i: int|
            0 <= i < ".blog.md"@.len() ==> '\0' <= #[trigger] ".blog.md"@[i] <= '\u{7f}');
    }
    is_ascii_spec_bytes(".blog.md");
    assert(is_ascii("blog.md")) by {
        assert(forall|i: int|
            0 <= i < "blog.md"@.len() ==> '\0' <= #[trigger] "blog.md"@[i] <= '\u{7f}');
    }
    is_ascii_spec_bytes("blog.md");
    assert(is_ascii("<code class=\"language-")) by {
        assert(forall|i: int|
            0 <= i < "<code class=\"language-"@.len() ==> '\0'
                <= #[trigger] "<code class=\"language-"@[i] <= '\u{7f}');
    }
    is_ascii_spec_bytes("<code class=\"language-");
    assert(is_ascii("<code>")) by {
        assert(forall|i: int|
            0 <= i < "<code>"@.len() ==> '\0' <= #[trigger] "<code>"@[i] <= '\u{7f}');
    }
    is_ascii_spec_bytes("<code>");
    assert(is_ascii("</code>")) by {
        assert(forall|i: int|
            0 <= i < "</code>"@.len() ==> '\0' <= #[trigger] "</code>"@[i] <= '\u{7f}');
    }
    is_ascii_spec_bytes("</code>");
    assert(is_ascii("&quot;")) by {
        assert(forall|i: int|
            0 <= i < "&quot;"@.len() ==> '\0' <= #[trigger] "&quot;"@[i] <= '\u{7f}');
    }
    is_ascii_spec_bytes("&quot;");
    assert(is_ascii("&amp;")) by {
        assert(forall|i: int|
            0 <= i < "&amp;"@.len() ==> '\0' <= #[trigger] "&amp;"@[i] <= '\u{7f}');
    }
    is_ascii_spec_bytes("&amp;");
    assert(is_ascii("<pre style=\"background-color:#ffffff;\">\n</pre>")) by {
        assert(forall|i: int|
            0 <= i < "<pre style=\"background-color:#ffffff;\">\n</pre>"@.len() ==> '\0'
                <= #[trigger] "<pre style=\"background-color:#ffffff;\">\n</pre>"@[i] <= '\u{7f}');
    }
    is_ascii_spec_bytes("<pre style=\"background-color:#ffffff;\">\n</pre>");
    assert(is_ascii("<code><pre style=\"background-color:#ffffff;\">")) by {
        assert(forall|i: int|
            0 <= i < "<code><pre style=\"background-color:#ffffff;\">"@.len() ==> '\0'
                <= #[trigger] "<code><pre style=\"background-color:#ffffff;\">"@[i] <= '\u{7f}');
    }
    is_ascii_spec_bytes("<code><pre style=\"background-color:#ffffff;\">");
    assert(is_ascii("txt")) by {
        assert(forall|i: int| 0 <= i < "txt"@.len() ==> '\0' <= #[trigger] "txt"@[i] <= '\u{7f}');
    }
    is_ascii_spec_bytes("txt");
}

} // verus!
