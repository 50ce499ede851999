//! Entries: how fetched source files become blog entries.
//!
//! A source file qualifies as an entry when its name ends with the marker
//! suffix.  Its title is read off the first line of its markdown; a file
//! without a heading marker there, or an empty file, is skipped with a
//! warning.  The permalink is the filename with the marker suffix removed;
//! when two files resolve to the same permalink, the file processed last
//! wins and overwrites the earlier entry.
use vstd::prelude::*;

use crate::bytes::bytes_eq;
use crate::bytes::bytes_le;
use crate::bytes::clone_bytes;
use crate::bytes::lex_le;
use crate::errors::RenderError;
use crate::highlight::highlighted_doc;
use crate::highlight::pre_spec;
use crate::highlight::tokens_spec;
use crate::parsers::markdown_html_of;
use crate::parsers::ParserUtils;

verus! {

/// One remote source file, already fetched: its name, its raw markdown, and
/// the metadata of the collection it came from.
pub struct SourceFile {
    pub filename: Vec<u8>,
    pub raw: Vec<u8>,
    pub description: Vec<u8>,
    pub created_at: Vec<u8>,
    pub updated_at: Vec<u8>,
    pub source_url: Vec<u8>,
}

/// One blog entry, reconstructed each run and keyed by its permalink.
pub struct Entry {
    pub permalink: Vec<u8>,
    pub title: Vec<u8>,
    pub description: Vec<u8>,
    pub created_at: Vec<u8>,
    pub updated_at: Vec<u8>,
    /// Rendered, highlighted HTML.
    pub content: Vec<u8>,
    pub source_url: Vec<u8>,
}

#[derive(Clone, Copy, Debug, PartialEq, Eq, Structural)]
pub enum SkipReason {
    /// The file was empty.
    EmptyFile,
    /// The first line carried no heading marker.
    MissingTitle,
}

/// A per-file warning: the file was passed over, the run went on.
pub struct SkipNote {
    pub filename: Vec<u8>,
    pub reason: SkipReason,
}

/// A qualifying file that also yields a title becomes an entry.
pub open spec fn makes_entry(f: SourceFile) -> bool {
    ParserUtils::spec_qualifies(f.filename@) && ParserUtils::title_of(f.raw@) is Some
}

/// A qualifying file without a title line is skipped with a warning.
pub open spec fn makes_skip(f: SourceFile) -> bool {
    ParserUtils::spec_qualifies(f.filename@) && ParserUtils::title_of(f.raw@) is None
}

/// `c` is a possible rendering of markdown `md`: the highlighted document
/// for some per-element replacement list of the right length.
#[verifier::opaque]
pub open spec fn rendered_content_ok(md: Seq<u8>, c: Seq<u8>) -> bool {
    exists|reps: Seq<Seq<u8>>|
        reps.len() == tokens_spec(pre_spec(markdown_html_of(md))).len() && c == highlighted_doc(
            markdown_html_of(md),
            reps,
        )
}

/// `e` is the entry made from source file `f`.
pub open spec fn entry_matches(e: Entry, f: SourceFile) -> bool {
    &&& e.permalink@ == ParserUtils::permalink_of(f.filename@)
    &&& ParserUtils::title_of(f.raw@) matches Some(t) && e.title@ == t
    &&& e.description@ == f.description@
    &&& e.created_at@ == f.created_at@
    &&& e.updated_at@ == f.updated_at@
    &&& e.source_url@ == f.source_url@
    &&& rendered_content_ok(f.raw@, e.content@)
}

/// `e` is sourced from file `i`, and no later file before `bound` would have
/// overwritten it.
pub open spec fn sourced_from(e: Entry, files: Seq<SourceFile>, i: int, bound: int) -> bool {
    &&& 0 <= i < bound
    &&& makes_entry(files[i])
    &&& entry_matches(e, files[i])
    &&& forall|j: int|
        i < j < bound && makes_entry(#[trigger] files[j]) ==> ParserUtils::permalink_of(
            files[j].filename@,
        ) != e.permalink@
}

/// Some source file before `bound` yields `e`, unsuperseded.
pub open spec fn has_source(e: Entry, files: Seq<SourceFile>, bound: int) -> bool {
    exists|i: int| sourced_from(e, files, i, bound)
}

/// Some entry bears the permalink of file `i`.
pub open spec fn represented(files: Seq<SourceFile>, entries: Seq<Entry>, i: int) -> bool {
    exists|k: int|
        0 <= k < entries.len() && entries[k].permalink@ == ParserUtils::permalink_of(
            files[i].filename@,
        )
}

pub struct CollectOutcome {
    pub entries: Vec<Entry>,
    /// One warning per qualifying file that yielded no entry.
    pub skipped: Vec<SkipNote>,
    /// Language tokens no grammar was found for, across all entries.
    pub token_warnings: Vec<Vec<u8>>,
}

/// Position of the entry with permalink `p`, if one exists.
fn find_entry(entries: &Vec<Entry>, p: &[u8]) -> (r: Option<usize>)
    ensures
        match r {
            Some(k) => k < entries@.len() && entries@[k as int].permalink@ == p@ && forall|m: int|
                0 <= m < k ==> entries@[m].permalink@ != p@,
            None => forall|m: int| 0 <= m < entries@.len() ==> entries@[m].permalink@ != p@,
        },
{
    let mut k: usize = 0;
    while k < entries.len()
        invariant
            k <= entries@.len(),
            forall|m: int| 0 <= m < k ==> entries@[m].permalink@ != p@,
        decreases entries@.len() - k,
    {
        if bytes_eq(entries[k].permalink.as_slice(), p) {
            return Some(k);
        }
        k += 1;
    }
    None
}

/// The reason a skipped file is warned with.
pub open spec fn skip_reason_of(f: SourceFile) -> SkipReason {
    if f.raw@.len() == 0 {
        SkipReason::EmptyFile
    } else {
        SkipReason::MissingTitle
    }
}

/// The warnings owed for the files before `bound`: exactly one per
/// qualifying file without a title line, in file order, naming the file and
/// the reason it was passed over.
pub open spec fn spec_skip_notes(files: Seq<SourceFile>, bound: int) -> Seq<(Seq<u8>, SkipReason)>
    decreases bound,
{
    if bound <= 0 {
        Seq::empty()
    } else {
        spec_skip_notes(files, bound - 1) + if makes_skip(files[bound - 1]) {
            seq![(files[bound - 1].filename@, skip_reason_of(files[bound - 1]))]
        } else {
            Seq::empty()
        }
    }
}

/// What a skip note says, for comparing against `spec_skip_notes`.
pub open spec fn note_view(n: SkipNote) -> (Seq<u8>, SkipReason) {
    (n.filename@, n.reason)
}

/// All entries are sourced from files before `bound`, with pairwise
/// distinct permalinks, and every qualifying file before `bound` is
/// represented by the entry holding its permalink.
pub open spec fn entries_inv(entries: Seq<Entry>, files: Seq<SourceFile>, bound: int) -> bool {
    &&& forall|k: int|
        #![trigger entries[k]]
        0 <= k < entries.len() ==> has_source(entries[k], files, bound)
    &&& forall|k1: int, k2: int|
        0 <= k1 < k2 < entries.len() ==> entries[k1].permalink@ != entries[k2].permalink@
    &&& forall|i: int|
        #![trigger files[i]]
        0 <= i < bound && makes_entry(files[i]) ==> represented(files, entries, i)
}

/// A file that makes no entry does not disturb the entry invariant.
proof fn lemma_entries_extend(entries: Seq<Entry>, files: Seq<SourceFile>, j0: int)
    requires
        0 <= j0,
        !makes_entry(files[j0]),
        entries_inv(entries, files, j0),
    ensures
        entries_inv(entries, files, j0 + 1),
{
    assert forall|k: int|
        #![trigger entries[k]]
        0 <= k < entries.len() implies has_source(entries[k], files, j0 + 1) by {
        let i = choose|i: int| sourced_from(entries[k], files, i, j0);
        assert(sourced_from(entries[k], files, i, j0 + 1));
    }
    assert forall|i: int|
        #![trigger files[i]]
        0 <= i < j0 + 1 && makes_entry(files[i]) implies represented(files, entries, i) by {
        assert(i < j0);
    }
}

/// Replacing the entry that bears the new entry's permalink keeps the
/// entry invariant and steps its bound.
proof fn lemma_apply_update(pre: Seq<Entry>, e: Entry, k: int, files: Seq<SourceFile>, j0: int)
    requires
        0 <= j0 < files.len(),
        makes_entry(files[j0]),
        entry_matches(e, files[j0]),
        entries_inv(pre, files, j0),
        0 <= k < pre.len(),
        pre[k].permalink@ == e.permalink@,
    ensures
        entries_inv(pre.update(k, e), files, j0 + 1),
{
    let s2 = pre.update(k, e);
    let p = e.permalink@;
    assert forall|kk: int|
        #![trigger s2[kk]]
        0 <= kk < s2.len() implies has_source(s2[kk], files, j0 + 1) by {
        if kk == k {
            assert(sourced_from(s2[kk], files, j0, j0 + 1));
        } else {
            let i = choose|i: int| sourced_from(pre[kk], files, i, j0);
            assert(s2[kk] == pre[kk]);
            assert(s2[kk].permalink@ != p);
            assert(sourced_from(s2[kk], files, i, j0 + 1));
        }
    }
    assert forall|i2: int|
        #![trigger files[i2]]
        0 <= i2 < j0 + 1 && makes_entry(files[i2]) implies represented(files, s2, i2) by {
        if i2 == j0 {
            assert(0 <= k < s2.len() && s2[k].permalink@ == ParserUtils::permalink_of(
                files[i2].filename@,
            ));
        } else {
            let k3 = choose|k3: int|
                0 <= k3 < pre.len() && pre[k3].permalink@ == ParserUtils::permalink_of(
                    files[i2].filename@,
                );
            assert(s2[k3].permalink@ == pre[k3].permalink@);
            assert(0 <= k3 < s2.len() && s2[k3].permalink@ == ParserUtils::permalink_of(
                files[i2].filename@,
            ));
        }
    }
}

/// Appending an entry with a fresh permalink keeps the entry invariant and
/// steps its bound.
proof fn lemma_apply_push(pre: Seq<Entry>, e: Entry, files: Seq<SourceFile>, j0: int)
    requires
        0 <= j0 < files.len(),
        makes_entry(files[j0]),
        entry_matches(e, files[j0]),
        entries_inv(pre, files, j0),
        forall|m: int| 0 <= m < pre.len() ==> pre[m].permalink@ != e.permalink@,
    ensures
        entries_inv(pre.push(e), files, j0 + 1),
{
    let s2 = pre.push(e);
    let p = e.permalink@;
    assert forall|kk: int|
        #![trigger s2[kk]]
        0 <= kk < s2.len() implies has_source(s2[kk], files, j0 + 1) by {
        if kk == s2.len() - 1 {
            assert(s2[kk] == e);
            assert(sourced_from(s2[kk], files, j0, j0 + 1));
        } else {
            assert(s2[kk] == pre[kk]);
            let i = choose|i: int| sourced_from(pre[kk], files, i, j0);
            assert(s2[kk].permalink@ != p);
            assert(sourced_from(s2[kk], files, i, j0 + 1));
        }
    }
    assert forall|i2: int|
        #![trigger files[i2]]
        0 <= i2 < j0 + 1 && makes_entry(files[i2]) implies represented(files, s2, i2) by {
        if i2 == j0 {
            assert(0 <= s2.len() - 1 < s2.len() && s2[s2.len() - 1].permalink@
                == ParserUtils::permalink_of(files[i2].filename@));
        } else {
            let k3 = choose|k3: int|
                0 <= k3 < pre.len() && pre[k3].permalink@ == ParserUtils::permalink_of(
                    files[i2].filename@,
                );
            assert(s2[k3].permalink@ == pre[k3].permalink@);
            assert(0 <= k3 < s2.len() && s2[k3].permalink@ == ParserUtils::permalink_of(
                files[i2].filename@,
            ));
        }
    }
}

/// Insert the entry made from file `j0`: replace the entry bearing its
/// permalink if one exists, else append.  The last-processed file wins.
fn apply_entry(
    entries: &mut Vec<Entry>,
    entry: Entry,
    Ghost(files): Ghost<Seq<SourceFile>>,
    Ghost(j0): Ghost<int>,
)
    requires
        0 <= j0 < files.len(),
        makes_entry(files[j0]),
        entry_matches(entry, files[j0]),
        entries_inv(old(entries)@, files, j0),
    ensures
        entries_inv(final(entries)@, files, j0 + 1),
{
    let ghost pre_entries = entries@;
    let ghost ev = entry;
    match find_entry(entries, entry.permalink.as_slice()) {
        Some(k) => {
            let _replaced = entries.remove(k);
            entries.insert(k, entry);
            proof {
                assert(entries@ =~= pre_entries.update(k as int, ev));
                lemma_apply_update(pre_entries, ev, k as int, files, j0);
            }
        },
        None => {
            entries.push(entry);
            proof {
                assert(entries@ =~= pre_entries.push(ev));
                lemma_apply_push(pre_entries, ev, files, j0);
            }
        },
    }
}

/// Build the entry collection from the fetched source files, in file order,
/// later files overwriting earlier ones with the same permalink.
///
/// On success:
/// - every entry is made from the last qualifying file bearing its permalink;
/// - permalinks are pairwise distinct;
/// - every qualifying file is represented by an entry with its permalink;
/// - every qualifying file without a title line has a skip warning, and
///   every skip warning names such a file.
///
/// The order of the returned entries is deliberately unspecified; the
/// listing is sorted by date before rendering.
pub fn collect_entries(
    files: &Vec<SourceFile>,
    set: &syntect::parsing::SyntaxSet,
    theme: &syntect::highlighting::Theme,
) -> (r: Result<CollectOutcome, RenderError>)
    ensures
        r matches Ok(out) ==> entries_inv(out.entries@, files@, files@.len() as int)
            && out.skipped@.map_values(|n: SkipNote| note_view(n)) == spec_skip_notes(
            files@,
            files@.len() as int,
        ),
        (forall|k: int| 0 <= k < files@.len() ==> !makes_entry(#[trigger] files@[k])) ==> r
            is Ok,
{
    let mut entries: Vec<Entry> = Vec::new();
    let mut skipped: Vec<SkipNote> = Vec::new();
    let mut token_warnings: Vec<Vec<u8>> = Vec::new();
    let mut j: usize = 0;
    proof {
        assert(skipped@.map_values(|n: SkipNote| note_view(n)) =~= Seq::<(
            Seq<u8>,
            SkipReason,
        )>::empty());
    }
    while j < files.len()
        invariant
            j <= files@.len(),
            entries_inv(entries@, files@, j as int),
            skipped@.map_values(|n: SkipNote| note_view(n)) == spec_skip_notes(
                files@,
                j as int,
            ),
        decreases files@.len() - j,
    {
        let ghost j0 = j as int;
        let f = &files[j];
        if ParserUtils::qualifies(f.filename.as_slice()) {
            match ParserUtils::extract_title(f.raw.as_slice()) {
                Some(title) => {
                    let permalink = ParserUtils::derive_permalink(f.filename.as_slice());
                    let rendered =
                        match ParserUtils::parse_markdown_to_html(f.raw.as_slice(), set, theme) {
                        Ok(o) => o,
                        Err(e) => {
                            proof {
                                assert(makes_entry(files@[j0]));
                            }
                            return Err(e);
                        },
                    };
                    let ghost repsv = rendered.replacements.deep_view();
                    let mut warns = rendered.warnings;
                    let entry = Entry {
                        permalink,
                        title,
                        description: clone_bytes(&f.description),
                        created_at: clone_bytes(&f.created_at),
                        updated_at: clone_bytes(&f.updated_at),
                        content: rendered.html,
                        source_url: clone_bytes(&f.source_url),
                    };
                    proof {
                        reveal(rendered_content_ok);
                        assert(entry.content@ == highlighted_doc(markdown_html_of(f.raw@), repsv));
                        assert(rendered_content_ok(f.raw@, entry.content@));
                        assert(entry_matches(entry, files@[j0]));
                        assert(!makes_skip(files@[j0]));
                        assert(spec_skip_notes(files@, j0 + 1) =~= spec_skip_notes(files@, j0));
                    }
                    token_warnings.append(&mut warns);
                    apply_entry(&mut entries, entry, Ghost(files@), Ghost(j0));
                },
                None => {
                    let reason = if f.raw.len() == 0 {
                        SkipReason::EmptyFile
                    } else {
                        SkipReason::MissingTitle
                    };
                    let note = SkipNote { filename: clone_bytes(&f.filename), reason };
                    let ghost notev = note;
                    let ghost pre_notes = skipped@.map_values(|n: SkipNote| note_view(n));
                    proof {
                        assert(makes_skip(files@[j0]));
                        assert(note_view(notev) == (files@[j0].filename@, skip_reason_of(
                            files@[j0],
                        )));
                        lemma_entries_extend(entries@, files@, j0);
                    }
                    skipped.push(note);
                    proof {
                        assert(skipped@.map_values(|n: SkipNote| note_view(n)) =~= pre_notes.push(
                            note_view(notev),
                        ));
                        assert(spec_skip_notes(files@, j0 + 1) =~= pre_notes.push(
                            note_view(notev),
                        ));
                    }
                },
            }
        } else {
            proof {
                assert(!makes_entry(files@[j0]));
                assert(!makes_skip(files@[j0]));
                lemma_entries_extend(entries@, files@, j0);
                assert(spec_skip_notes(files@, j0 + 1) =~= spec_skip_notes(files@, j0));
            }
        }
        j += 1;
    }
    Ok(CollectOutcome { entries, skipped, token_warnings })
}

/// Listing order: most recently created first; entries created at the same
/// time are ordered by permalink.  Timestamps are compared as bytes, which
/// orders RFC 3339 timestamps in a fixed offset chronologically.
pub open spec fn entry_le(a: Entry, b: Entry) -> bool {
    if a.created_at@ != b.created_at@ {
        lex_le(b.created_at@, a.created_at@)
    } else {
        lex_le(a.permalink@, b.permalink@)
    }
}

/// `e` placed before the first element of `acc` it precedes.
pub open spec fn insert_sorted_spec(acc: Seq<Entry>, e: Entry) -> Seq<Entry>
    decreases acc.len(),
{
    if acc.len() == 0 {
        seq![e]
    } else if entry_le(e, acc[0]) {
        seq![e] + acc
    } else {
        seq![acc[0]] + insert_sorted_spec(acc.skip(1), e)
    }
}

/// The entries in listing order, by repeated insertion.
pub open spec fn sort_entries_spec(s: Seq<Entry>) -> Seq<Entry>
    decreases s.len(),
{
    if s.len() == 0 {
        s
    } else {
        insert_sorted_spec(sort_entries_spec(s.drop_last()), s.last())
    }
}

/// Decide `entry_le`.
fn entry_le_exec(a: &Entry, b: &Entry) -> (r: bool)
    ensures
        r == entry_le(*a, *b),
{
    if bytes_eq(a.created_at.as_slice(), b.created_at.as_slice()) {
        bytes_le(a.permalink.as_slice(), b.permalink.as_slice())
    } else {
        bytes_le(b.created_at.as_slice(), a.created_at.as_slice())
    }
}

proof fn lemma_insert_position(acc: Seq<Entry>, e: Entry, idx: int)
    requires
        0 <= idx <= acc.len(),
        forall|m: int| 0 <= m < idx ==> !entry_le(e, #[trigger] acc[m]),
        idx < acc.len() ==> entry_le(e, acc[idx]),
    ensures
        insert_sorted_spec(acc, e) == acc.insert(idx, e),
    decreases idx,
{
    if idx == 0 {
        if acc.len() == 0 {
            assert(insert_sorted_spec(acc, e) =~= acc.insert(0, e));
        } else {
            assert(seq![e] + acc =~= acc.insert(0, e));
        }
    } else {
        lemma_insert_position(acc.skip(1), e, idx - 1);
        assert(seq![acc[0]] + acc.skip(1).insert(idx - 1, e) =~= acc.insert(idx, e));
    }
}

/// Listing order is total.
pub proof fn lemma_entry_le_total(a: Entry, b: Entry)
    ensures
        entry_le(a, b) || entry_le(b, a),
{
    if a.created_at@ != b.created_at@ {
        crate::bytes::lemma_lex_le_total(b.created_at@, a.created_at@);
    } else {
        crate::bytes::lemma_lex_le_total(a.permalink@, b.permalink@);
    }
}

/// Listing order is transitive.
pub proof fn lemma_entry_le_trans(a: Entry, b: Entry, c: Entry)
    requires
        entry_le(a, b),
        entry_le(b, c),
    ensures
        entry_le(a, c),
{
    if a.created_at@ == b.created_at@ && b.created_at@ == c.created_at@ {
        crate::bytes::lemma_lex_le_trans(a.permalink@, b.permalink@, c.permalink@);
    } else if a.created_at@ != b.created_at@ && b.created_at@ != c.created_at@ {
        crate::bytes::lemma_lex_le_trans(c.created_at@, b.created_at@, a.created_at@);
        if a.created_at@ == c.created_at@ {
            crate::bytes::lemma_lex_le_antisym(b.created_at@, a.created_at@);
        }
    }
}

/// The sequence stands in listing order.
pub open spec fn sorted_by_date(s: Seq<Entry>) -> bool {
    forall|i: int, j: int| 0 <= i <= j < s.len() ==> entry_le(#[trigger] s[i], #[trigger] s[j])
}

/// Inserting keeps a sorted sequence sorted; the head is the inserted
/// entry or the old head.
proof fn lemma_insert_sorted_preserves(acc: Seq<Entry>, e: Entry)
    requires
        sorted_by_date(acc),
    ensures
        sorted_by_date(insert_sorted_spec(acc, e)),
        insert_sorted_spec(acc, e).len() == acc.len() + 1,
        insert_sorted_spec(acc, e)[0] == e || (acc.len() > 0 && insert_sorted_spec(acc, e)[0]
            == acc[0]),
    decreases acc.len(),
{
    let r = insert_sorted_spec(acc, e);
    if acc.len() == 0 {
        assert forall|i: int, j: int| 0 <= i <= j < r.len() implies entry_le(
            #[trigger] r[i],
            #[trigger] r[j],
        ) by {
            lemma_entry_le_total(e, e);
        }
    } else if entry_le(e, acc[0]) {
        assert forall|i: int, j: int| 0 <= i <= j < r.len() implies entry_le(
            #[trigger] r[i],
            #[trigger] r[j],
        ) by {
            if i == 0 {
                if j == 0 {
                    lemma_entry_le_total(e, e);
                } else {
                    lemma_entry_le_trans(e, acc[0], acc[j - 1]);
                }
            }
        }
    } else {
        lemma_insert_sorted_preserves(acc.skip(1), e);
        let tail = insert_sorted_spec(acc.skip(1), e);
        assert(entry_le(acc[0], e)) by {
            lemma_entry_le_total(e, acc[0]);
        }
        assert(entry_le(acc[0], tail[0])) by {
            if acc.skip(1).len() > 0 && tail[0] == acc.skip(1)[0] {
                assert(acc.skip(1)[0] == acc[1]);
            }
        }
        assert forall|i: int, j: int| 0 <= i <= j < r.len() implies entry_le(
            #[trigger] r[i],
            #[trigger] r[j],
        ) by {
            if i == 0 {
                if j == 0 {
                    lemma_entry_le_total(acc[0], acc[0]);
                } else {
                    lemma_entry_le_trans(acc[0], tail[0], tail[j - 1]);
                }
            } else {
                assert(r[i] == tail[i - 1] && r[j] == tail[j - 1]);
            }
        }
    }
}

/// What `sort_by_date` returns stands in listing order.
pub proof fn lemma_sort_by_date_sorted(s: Seq<Entry>)
    ensures
        sorted_by_date(sort_entries_spec(s)),
        sort_entries_spec(s).len() == s.len(),
    decreases s.len(),
{
    if s.len() > 0 {
        lemma_sort_by_date_sorted(s.drop_last());
        lemma_insert_sorted_preserves(sort_entries_spec(s.drop_last()), s.last());
    }
}

/// Listing order holds whenever each adjacent pair is ordered.
proof fn lemma_le_span(s: Seq<Entry>, i: int, j: int)
    requires
        forall|k: int| 0 <= k < s.len() - 1 ==> entry_le(#[trigger] s[k], s[k + 1]),
        0 <= i <= j < s.len(),
    ensures
        entry_le(s[i], s[j]),
    decreases j - i,
{
    if i == j {
        lemma_entry_le_total(s[i], s[i]);
    } else {
        lemma_le_span(s, i, j - 1);
        lemma_entry_le_trans(s[i], s[j - 1], s[j]);
    }
}

/// Decide whether entries stand in listing order.
pub fn is_sorted_by_date(entries: &Vec<Entry>) -> (r: bool)
    ensures
        r == sorted_by_date(entries@),
{
    let mut k: usize = 1;
    while k < entries.len()
        invariant
            1 <= k,
            k <= entries@.len() || entries@.len() == 0,
            forall|m: int| 0 <= m < k - 1 ==> entry_le(#[trigger] entries@[m], entries@[m + 1]),
        decreases entries@.len() - k,
    {
        if !entry_le_exec(&entries[k - 1], &entries[k]) {
            return false;
        }
        k += 1;
    }
    proof {
        assert forall|i: int, j: int| 0 <= i <= j < entries@.len() implies entry_le(
            #[trigger] entries@[i],
            #[trigger] entries@[j],
        ) by {
            lemma_le_span(entries@, i, j);
        }
    }
    true
}

impl ParserUtils {
    /// Sort entries into listing order: descending by creation date, ties
    /// by permalink.
    pub fn sort_by_date(entries: Vec<Entry>) -> (r: Vec<Entry>)
        ensures
            r@ == sort_entries_spec(entries@),
    {
        let mut rest = entries;
        let mut out: Vec<Entry> = Vec::new();
        let ghost all = rest@;
        let ghost mut consumed = 0int;
        proof {
            assert(all.take(0) =~= Seq::<Entry>::empty());
        }
        while rest.len() > 0
            invariant
                consumed == all.len() - rest@.len(),
                0 <= consumed <= all.len(),
                rest@ =~= all.skip(consumed),
                out@ == sort_entries_spec(all.take(consumed)),
            decreases rest@.len(),
        {
            let ghost pre_out = out@;
            let e = rest.remove(0);
            proof {
                assert(e == all[consumed]);
                assert(rest@ =~= all.skip(consumed + 1));
            }
            let mut idx: usize = 0;
            while idx < out.len() && !entry_le_exec(&e, &out[idx])
                invariant
                    idx <= out@.len(),
                    out@ == pre_out,
                    forall|m: int| 0 <= m < idx ==> !entry_le(e, #[trigger] out@[m]),
                decreases out@.len() - idx,
            {
                idx += 1;
            }
            proof {
                lemma_insert_position(out@, e, idx as int);
            }
            out.insert(idx, e);
            proof {
                assert(all.take(consumed + 1).drop_last() =~= all.take(consumed));
                assert(all.take(consumed + 1).last() == all[consumed]);
                assert(sort_entries_spec(all.take(consumed + 1)) == insert_sorted_spec(
                    sort_entries_spec(all.take(consumed)),
                    all[consumed],
                ));
            }
            proof {
                consumed = consumed + 1;
            }
        }
        proof {
            assert(all.take(all.len() as int) =~= all);
        }
        out
    }
}

} // verus!
