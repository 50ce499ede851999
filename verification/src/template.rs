//! Template rendering and the build orchestration: the listing and home
//! page are rendered from the full entry set in a defined order (newest
//! first), then each stale entry's page is rendered, written to the output
//! tree, and recorded in the freshness cache.  Fresh entries are skipped
//! untouched.  A template that fails to render is fatal; a minifier failure
//! falls back to the unminified page.
use vstd::prelude::*;
use vstd::string::StringSliceAdditionalSpecFns;

use crate::bytemap::ByteMap;
use crate::cache::spec_fresh;
use crate::cache::ChangeCache;
use crate::config::Config;
use crate::errors::RenderError;
use crate::gist::sorted_by_date;
use crate::gist::Entry;

verus! {

/// What handlebars renders for a template and a set of string variables;
/// `None` when rendering fails.  It depends on the template and variables
/// alone.
pub uninterp spec fn hbs_render_of(template: Seq<u8>, vars: Map<Seq<u8>, Seq<u8>>) -> Option<
    Seq<u8>,
>;

/// What the HTML minifier produces; `None` when it fails.  It depends on
/// the document alone.
pub uninterp spec fn minified_of(html: Seq<u8>) -> Option<Seq<u8>>;

/// The map a list of key/value pairs denotes, later pairs winning.
pub open spec fn pairs_map(s: Seq<(Vec<u8>, Vec<u8>)>) -> Map<Seq<u8>, Seq<u8>>
    decreases s.len(),
{
    if s.len() == 0 {
        Map::empty()
    } else {
        pairs_map(s.drop_last()).insert(s.last().0@, s.last().1@)
    }
}

/// Relies on handlebars' `Handlebars::render_template`: the template
/// rendered against the given string variables.
#[verifier::external_body]
fn hbs_render(template: &[u8], pairs: &Vec<(Vec<u8>, Vec<u8>)>) -> (r: Option<Vec<u8>>)
    ensures
        (r is Some) == (hbs_render_of(template@, pairs_map(pairs@)) is Some),
        r matches Some(v) ==> hbs_render_of(template@, pairs_map(pairs@)) matches Some(sv) && v@
            == sv,
{
    let mut vars = serde_json::Map::new();
    for (k, v) in pairs.iter() {
        let key = String::from_utf8_lossy(k).into_owned();
        let val = String::from_utf8_lossy(v).into_owned();
        vars.insert(key, serde_json::Value::String(val));
    }
    let reg = handlebars::Handlebars::new();
    let tpl = String::from_utf8_lossy(template);
    match reg.render_template(tpl.as_ref(), &serde_json::Value::Object(vars)) {
        Ok(s) => Some(s.into_bytes()),
        Err(_) => None,
    }
}

/// Relies on html-minifier's `HTMLMinifier::digest` and `get_html`: the
/// minified document.
#[verifier::external_body]
fn minify_raw(html: &[u8]) -> (r: Option<Vec<u8>>)
    ensures
        (r is Some) == (minified_of(html@) is Some),
        r matches Some(v) ==> minified_of(html@) matches Some(sv) && v@ == sv,
{
    let mut minifier = html_minifier::HTMLMinifier::new();
    match minifier.digest(html) {
        Ok(()) => Some(minifier.get_html().to_vec()),
        Err(_) => None,
    }
}

/// A set of named template variables, built key by key.
pub struct VarSet {
    pairs: Vec<(Vec<u8>, Vec<u8>)>,
}

impl VarSet {
    pub closed spec fn view(&self) -> Map<Seq<u8>, Seq<u8>> {
        pairs_map(self.pairs@)
    }

    pub fn new() -> (r: Self)
        ensures
            r@ == Map::<Seq<u8>, Seq<u8>>::empty(),
    {
        let r = VarSet { pairs: Vec::new() };
        proof {
            assert(r@ =~= Map::<Seq<u8>, Seq<u8>>::empty());
        }
        r
    }

    pub fn add(&mut self, key: &str, value: &[u8])
        ensures
            final(self)@ == old(self)@.insert(key.spec_bytes(), value@),
    {
        let k = vstd::slice::slice_to_vec(key.as_bytes());
        let v = vstd::slice::slice_to_vec(value);
        self.pairs.push((k, v));
        proof {
            assert(self.pairs@.drop_last() =~= old(self).pairs@);
        }
    }

    /// Render a template against these variables.
    pub fn render(&self, template: &[u8]) -> (r: Option<Vec<u8>>)
        ensures
            (r is Some) == (hbs_render_of(template@, self@) is Some),
            r matches Some(v) ==> hbs_render_of(template@, self@) matches Some(sv) && v@ == sv,
    {
        hbs_render(template, &self.pairs)
    }
}

/// The link back to the entry's source, as injected under each page.
pub open spec fn comment_section_of(url: Seq<u8>) -> Seq<u8> {
    "<br>\n\t<a href=\"".spec_bytes() + url
        + "\" style=\"color: blue;\">Read comments for this gist</a>".spec_bytes()
}

/// `url` and `path` joined by exactly one slash, on bytes.
pub open spec fn joined_url_bytes(url: Seq<u8>, path: Seq<u8>) -> Seq<u8> {
    if url.len() > 0 && url[url.len() - 1] == 47 {
        url + path
    } else {
        url + seq![47u8] + path
    }
}

fn join_url_bytes(url: &[u8], path: &[u8]) -> (r: Vec<u8>)
    ensures
        r@ == joined_url_bytes(url@, path@),
{
    let mut out: Vec<u8> = Vec::new();
    crate::bytes::push_all(&mut out, url);
    if url.len() == 0 || url[url.len() - 1] != 47 {
        out.push(47);
    }
    crate::bytes::push_all(&mut out, path);
    proof {
        if url@.len() > 0 && url@[url@.len() - 1] == 47 {
            assert(out@ =~= url@ + path@);
        } else {
            assert(out@ =~= url@ + seq![47u8] + path@);
        }
    }
    out
}

/// The variables of one listing item.
pub open spec fn listing_vars(e: Entry) -> Map<Seq<u8>, Seq<u8>> {
    Map::empty().insert("page_title".spec_bytes(), e.title@).insert(
        "page_description".spec_bytes(),
        e.description@,
    ).insert("page_url".spec_bytes(), seq![47u8] + e.permalink@).insert(
        "published_date".spec_bytes(),
        e.created_at@,
    )
}

/// The assembled listing: each entry's fragment in order, each preceded by
/// a newline; `None` as soon as one fragment fails.
pub open spec fn spec_listing(tpl: Seq<u8>, entries: Seq<Entry>) -> Option<Seq<u8>>
    decreases entries.len(),
{
    if entries.len() == 0 {
        Some(Seq::<u8>::empty())
    } else {
        match (spec_listing(tpl, entries.drop_last()), hbs_render_of(
            tpl,
            listing_vars(entries.last()),
        )) {
            (Some(acc), Some(fr)) => Some(acc + seq![10u8] + fr),
            _ => None,
        }
    }
}

/// The variables of the home page.
pub open spec fn home_vars(c: Config, listing: Seq<u8>) -> Map<Seq<u8>, Seq<u8>> {
    Map::empty().insert("blog_title".spec_bytes(), c.blog_title@).insert(
        "blog_description".spec_bytes(),
        c.blog_description@,
    ).insert("blog_url".spec_bytes(), c.blog_url@).insert("blog_list".spec_bytes(), listing)
}

/// Minification as configured: on failure or when disabled, the document
/// itself.
pub open spec fn apply_minify(c: Config, h: Seq<u8>) -> Seq<u8> {
    if c.minify_html {
        match minified_of(h) {
            Some(m) => m,
            None => h,
        }
    } else {
        h
    }
}

/// The page title, rendered from the configured title format.
pub open spec fn spec_page_title(c: Config, e: Entry) -> Option<Seq<u8>> {
    hbs_render_of(c.pages_title@, Map::empty().insert("blog_title".spec_bytes(), e.title@))
}

/// The variables of one full page.
pub open spec fn page_vars(c: Config, e: Entry, ptitle: Seq<u8>) -> Map<Seq<u8>, Seq<u8>> {
    Map::empty().insert("blog_title".spec_bytes(), c.blog_title@).insert(
        "blog_description".spec_bytes(),
        c.blog_description@,
    ).insert("blog_url".spec_bytes(), c.blog_url@).insert("page_title".spec_bytes(), ptitle)
        .insert("page_description".spec_bytes(), e.description@).insert(
        "page_url".spec_bytes(),
        joined_url_bytes(c.blog_url@, e.permalink@),
    ).insert("published_date".spec_bytes(), e.created_at@).insert(
        "updated_at".spec_bytes(),
        e.updated_at@,
    ).insert("blog_contents".spec_bytes(), e.content@).insert(
        "comment_section".spec_bytes(),
        comment_section_of(e.source_url@),
    )
}

/// One entry's page before minification: title format, then the page
/// template; `None` when a template fails.
pub open spec fn spec_page_raw(c: Config, page_tpl: Seq<u8>, e: Entry) -> Option<Seq<u8>> {
    match spec_page_title(c, e) {
        Some(pt) => hbs_render_of(page_tpl, page_vars(c, e, pt)),
        None => None,
    }
}

/// One entry's final page bytes: the raw page, then minification as
/// configured; `None` when a template fails.
pub open spec fn spec_page(c: Config, page_tpl: Seq<u8>, e: Entry) -> Option<Seq<u8>> {
    match spec_page_raw(c, page_tpl, e) {
        Some(html) => Some(apply_minify(c, html)),
        None => None,
    }
}

/// The page fell back to its unminified bytes: minification was asked for
/// and failed.
pub open spec fn page_fallback(c: Config, page_tpl: Seq<u8>, e: Entry) -> bool {
    c.minify_html && (spec_page_raw(c, page_tpl, e) matches Some(h) && minified_of(h) is None)
}

/// The home page before minification; `None` when the template fails.
pub open spec fn spec_home_raw(c: Config, home_tpl: Seq<u8>, listing: Seq<u8>) -> Option<
    Seq<u8>,
> {
    hbs_render_of(home_tpl, home_vars(c, listing))
}

/// The home page bytes for a listing; `None` when the template fails.
pub open spec fn spec_home(c: Config, home_tpl: Seq<u8>, listing: Seq<u8>) -> Option<Seq<u8>> {
    match spec_home_raw(c, home_tpl, listing) {
        Some(html) => Some(apply_minify(c, html)),
        None => None,
    }
}

/// The home page fell back to its unminified bytes.
pub open spec fn home_fallback(c: Config, home_tpl: Seq<u8>, listing: Seq<u8>) -> bool {
    c.minify_html && (spec_home_raw(c, home_tpl, listing) matches Some(h) && minified_of(h)
        is None)
}

/// The templates the orchestrator consumes.
pub struct Templates {
    pub home: Vec<u8>,
    pub page: Vec<u8>,
    pub listing: Vec<u8>,
}

/// Render the listing fragments of `entries` in order and concatenate them.
pub fn render_blog_list(tpl: &[u8], entries: &Vec<Entry>) -> (r: Option<Vec<u8>>)
    ensures
        (r is Some) == (spec_listing(tpl@, entries@) is Some),
        r matches Some(v) ==> spec_listing(tpl@, entries@) matches Some(sv) && v@ == sv,
{
    let mut acc: Vec<u8> = Vec::new();
    let mut k: usize = 0;
    proof {
        assert(entries@.take(0) =~= Seq::<Entry>::empty());
    }
    while k < entries.len()
        invariant
            k <= entries@.len(),
            spec_listing(tpl@, entries@.take(k as int)) matches Some(sv) && acc@ == sv,
        decreases entries@.len() - k,
    {
        let e = &entries[k];
        let mut vars = VarSet::new();
        vars.add("page_title", e.title.as_slice());
        vars.add("page_description", e.description.as_slice());
        let mut page_url: Vec<u8> = Vec::new();
        page_url.push(47);
        crate::bytes::push_all(&mut page_url, e.permalink.as_slice());
        proof {
            assert(page_url@ =~= seq![47u8] + e.permalink@);
        }
        vars.add("page_url", page_url.as_slice());
        vars.add("published_date", e.created_at.as_slice());
        proof {
            assert(vars@ =~= listing_vars(entries@[k as int]));
        }
        let fragment = match vars.render(tpl) {
            Some(f) => f,
            None => {
                proof {
                    assert(entries@.take(entries@.len() as int) =~= entries@);
                    lemma_listing_prefix_none(tpl@, entries@, k as int);
                }
                return None;
            },
        };
        let ghost pre_acc = acc@;
        acc.push(10);
        crate::bytes::push_all(&mut acc, fragment.as_slice());
        proof {
            assert(entries@.take(k + 1).drop_last() =~= entries@.take(k as int));
            assert(entries@.take(k + 1).last() == entries@[k as int]);
            assert(acc@ =~= pre_acc + seq![10u8] + fragment@);
        }
        k += 1;
    }
    proof {
        assert(entries@.take(entries@.len() as int) =~= entries@);
    }
    Some(acc)
}

/// A failing fragment anywhere makes the whole listing fail.
proof fn lemma_listing_prefix_none(tpl: Seq<u8>, entries: Seq<Entry>, k: int)
    requires
        0 <= k < entries.len(),
        hbs_render_of(tpl, listing_vars(entries[k])) is None,
    ensures
        spec_listing(tpl, entries) is None,
    decreases entries.len(),
{
    if entries.len() > 0 {
        if k == entries.len() - 1 {
        } else {
            assert(entries.drop_last()[k] == entries[k]);
            lemma_listing_prefix_none(tpl, entries.drop_last(), k);
        }
    }
}

/// Minify when enabled, keeping the original document on failure; the
/// second component reports that fallback, a warning.
pub fn minify_html(html: Vec<u8>, enabled: bool) -> (r: (Vec<u8>, bool))
    ensures
        !enabled ==> r.0@ == html@ && !r.1,
        enabled ==> ({
            match minified_of(html@) {
                Some(m) => r.0@ == m && !r.1,
                None => r.0@ == html@ && r.1,
            }
        }),
{
    if !enabled {
        return (html, false);
    }
    match minify_raw(html.as_slice()) {
        Some(m) => (m, false),
        None => (html, true),
    }
}

/// Render one entry's full page; the flag reports a minifier fallback.
pub fn render_page(c: &Config, page_tpl: &[u8], e: &Entry) -> (r: Option<(Vec<u8>, bool)>)
    ensures
        (r is Some) == (spec_page(*c, page_tpl@, *e) is Some),
        r matches Some(v) ==> spec_page(*c, page_tpl@, *e) matches Some(sv) && v.0@ == sv && v.1
            == page_fallback(*c, page_tpl@, *e),
{
    let mut tvars = VarSet::new();
    tvars.add("blog_title", e.title.as_slice());
    proof {
        assert(tvars@ =~= Map::empty().insert("blog_title".spec_bytes(), e.title@));
    }
    let ptitle = match tvars.render(c.pages_title.as_slice()) {
        Some(t) => t,
        None => {
            return None;
        },
    };
    let mut comment: Vec<u8> = Vec::new();
    crate::bytes::push_all(&mut comment, "<br>\n\t<a href=\"".as_bytes());
    crate::bytes::push_all(&mut comment, e.source_url.as_slice());
    crate::bytes::push_all(
        &mut comment,
        "\" style=\"color: blue;\">Read comments for this gist</a>".as_bytes(),
    );
    proof {
        assert(comment@ =~= comment_section_of(e.source_url@));
    }
    let page_url = join_url_bytes(c.blog_url.as_slice(), e.permalink.as_slice());
    let mut vars = VarSet::new();
    vars.add("blog_title", c.blog_title.as_slice());
    vars.add("blog_description", c.blog_description.as_slice());
    vars.add("blog_url", c.blog_url.as_slice());
    vars.add("page_title", ptitle.as_slice());
    vars.add("page_description", e.description.as_slice());
    vars.add("page_url", page_url.as_slice());
    vars.add("published_date", e.created_at.as_slice());
    vars.add("updated_at", e.updated_at.as_slice());
    vars.add("blog_contents", e.content.as_slice());
    vars.add("comment_section", comment.as_slice());
    proof {
        assert(vars@ =~= page_vars(*c, *e, ptitle@));
    }
    match vars.render(page_tpl) {
        Some(html) => {
            let (out, warned) = minify_html(html, c.minify_html);
            Some((out, warned))
        },
        None => None,
    }
}

/// Render the home page from the assembled listing; the flag reports a
/// minifier fallback.
pub fn render_home(c: &Config, home_tpl: &[u8], listing: &[u8]) -> (r: Option<(Vec<u8>, bool)>)
    ensures
        (r is Some) == (spec_home(*c, home_tpl@, listing@) is Some),
        r matches Some(v) ==> spec_home(*c, home_tpl@, listing@) matches Some(sv) && v.0@ == sv
            && v.1 == home_fallback(*c, home_tpl@, listing@),
{
    let mut vars = VarSet::new();
    vars.add("blog_title", c.blog_title.as_slice());
    vars.add("blog_description", c.blog_description.as_slice());
    vars.add("blog_url", c.blog_url.as_slice());
    vars.add("blog_list", listing);
    proof {
        assert(vars@ =~= home_vars(*c, listing@));
    }
    match vars.render(home_tpl) {
        Some(html) => {
            let (out, warned) = minify_html(html, c.minify_html);
            Some((out, warned))
        },
        None => None,
    }
}

/// Is the entry stale against the cache and output state it is judged in?
pub open spec fn stale(c_map: Map<Seq<u8>, Seq<u8>>, o_map: Map<Seq<u8>, Seq<u8>>, e: Entry) -> bool {
    !spec_fresh(c_map, e.permalink@, e.updated_at@, o_map.contains_key(e.permalink@))
}

/// The permalinks of the stale entries, in entry order.
pub open spec fn stale_permalinks(
    s: Seq<Entry>,
    c_map: Map<Seq<u8>, Seq<u8>>,
    o_map: Map<Seq<u8>, Seq<u8>>,
) -> Seq<Seq<u8>>
    decreases s.len(),
{
    if s.len() == 0 {
        Seq::empty()
    } else {
        stale_permalinks(s.drop_last(), c_map, o_map) + if stale(c_map, o_map, s.last()) {
            seq![s.last().permalink@]
        } else {
            Seq::empty()
        }
    }
}

/// The permalinks of the fresh entries, in entry order.
pub open spec fn fresh_permalinks(
    s: Seq<Entry>,
    c_map: Map<Seq<u8>, Seq<u8>>,
    o_map: Map<Seq<u8>, Seq<u8>>,
) -> Seq<Seq<u8>>
    decreases s.len(),
{
    if s.len() == 0 {
        Seq::empty()
    } else {
        fresh_permalinks(s.drop_last(), c_map, o_map) + if !stale(c_map, o_map, s.last()) {
            seq![s.last().permalink@]
        } else {
            Seq::empty()
        }
    }
}

/// Every stale entry's page renders.
pub open spec fn pages_ok(
    c: Config,
    tpl: Seq<u8>,
    s: Seq<Entry>,
    c_map: Map<Seq<u8>, Seq<u8>>,
    o_map: Map<Seq<u8>, Seq<u8>>,
) -> bool {
    forall|k: int|
        #![trigger s[k]]
        0 <= k < s.len() && stale(c_map, o_map, s[k]) ==> spec_page(c, tpl, s[k]) is Some
}

/// The whole build succeeds: the listing, the home page, and every page
/// that must be re-rendered.
pub open spec fn build_ok(
    c: Config,
    t_home: Seq<u8>,
    t_page: Seq<u8>,
    t_listing: Seq<u8>,
    s: Seq<Entry>,
    c_map: Map<Seq<u8>, Seq<u8>>,
    o_map: Map<Seq<u8>, Seq<u8>>,
) -> bool {
    &&& spec_listing(t_listing, s) matches Some(l) && spec_home(c, t_home, l) is Some
    &&& pages_ok(c, t_page, s, c_map, o_map)
}

/// Entries with pairwise distinct permalinks.
pub open spec fn distinct_permalinks(s: Seq<Entry>) -> bool {
    forall|k1: int, k2: int| 0 <= k1 < k2 < s.len() ==> s[k1].permalink@ != s[k2].permalink@
}

/// Some entry bears permalink `q`.
pub open spec fn key_of(s: Seq<Entry>, q: Seq<u8>) -> bool {
    exists|k: int| 0 <= k < s.len() && s[k].permalink@ == q
}

/// `m1` agrees with `m0` at `q`: same presence, same value.
pub open spec fn map_untouched_at(
    m0: Map<Seq<u8>, Seq<u8>>,
    m1: Map<Seq<u8>, Seq<u8>>,
    q: Seq<u8>,
) -> bool {
    m1.contains_key(q) == m0.contains_key(q) && (m0.contains_key(q) ==> m1[q] == m0[q])
}

/// Keys no entry bears are left untouched in both maps.
pub open spec fn others_untouched(
    s: Seq<Entry>,
    c0: Map<Seq<u8>, Seq<u8>>,
    c1: Map<Seq<u8>, Seq<u8>>,
    o0: Map<Seq<u8>, Seq<u8>>,
    o1: Map<Seq<u8>, Seq<u8>>,
) -> bool {
    forall|q: Seq<u8>|
        !key_of(s, q) ==> #[trigger] map_untouched_at(c0, c1, q) && map_untouched_at(o0, o1, q)
}

/// The processed state of one entry: a stale entry's page is written and
/// its timestamp recorded; a fresh entry's artifact and record are left
/// untouched.
pub open spec fn entry_done(
    c: Config,
    tpl: Seq<u8>,
    e: Entry,
    c0: Map<Seq<u8>, Seq<u8>>,
    o0: Map<Seq<u8>, Seq<u8>>,
    c1: Map<Seq<u8>, Seq<u8>>,
    o1: Map<Seq<u8>, Seq<u8>>,
) -> bool {
    if stale(c0, o0, e) {
        &&& o1.contains_key(e.permalink@)
        &&& spec_page(c, tpl, e) matches Some(pv) && o1[e.permalink@] == pv
        &&& c1.contains_key(e.permalink@)
        &&& c1[e.permalink@] == e.updated_at@
        &&& spec_page(c, tpl, e) is Some
    } else {
        map_untouched_at(o0, o1, e.permalink@) && map_untouched_at(c0, c1, e.permalink@)
    }
}

/// The permalinks whose pages fell back to unminified bytes, in entry
/// order: stale entries whose minification was asked for and failed.
pub open spec fn fallback_permalinks(
    s: Seq<Entry>,
    c: Config,
    tpl: Seq<u8>,
    c_map: Map<Seq<u8>, Seq<u8>>,
    o_map: Map<Seq<u8>, Seq<u8>>,
) -> Seq<Seq<u8>>
    decreases s.len(),
{
    if s.len() == 0 {
        Seq::empty()
    } else {
        fallback_permalinks(s.drop_last(), c, tpl, c_map, o_map) + if stale(
            c_map,
            o_map,
            s.last(),
        ) && page_fallback(c, tpl, s.last()) {
            seq![s.last().permalink@]
        } else {
            Seq::empty()
        }
    }
}

/// Decide whether entries carry pairwise distinct permalinks.
pub fn has_distinct_permalinks(entries: &Vec<Entry>) -> (r: bool)
    ensures
        r == distinct_permalinks(entries@),
{
    let mut i: usize = 0;
    while i < entries.len()
        invariant
            i <= entries@.len(),
            forall|k1: int, k2: int|
                0 <= k1 < k2 < entries@.len() && k1 < i ==> entries@[k1].permalink@
                    != entries@[k2].permalink@,
        decreases entries@.len() - i,
    {
        let mut j: usize = i + 1;
        while j < entries.len()
            invariant
                i < j,
                j <= entries@.len(),
                i < entries@.len(),
                forall|m: int| i < m < j ==> entries@[i as int].permalink@ != entries@[m].permalink@,
            decreases entries@.len() - j,
        {
            if crate::bytes::bytes_eq(
                entries[i].permalink.as_slice(),
                entries[j].permalink.as_slice(),
            ) {
                return false;
            }
            j += 1;
        }
        i += 1;
    }
    true
}

/// What one build run produced.
pub struct BuildReport {
    /// The home page, rendered fresh on every run.
    pub home_html: Vec<u8>,
    /// The home page kept its unminified bytes after a minifier failure.
    pub home_minify_fallback: bool,
    /// Permalinks rendered this run, in entry order.
    pub rendered: Vec<Vec<u8>>,
    /// Permalinks skipped as fresh, in entry order.
    pub skipped: Vec<Vec<u8>>,
    /// Permalinks whose pages fell back to unminified bytes, in entry order.
    pub minify_fallbacks: Vec<Vec<u8>>,
}

pub struct TemplateWriter;

impl TemplateWriter {
    /// Drive one build over `entries`, which must stand in the documented
    /// listing order — newest first, as `ParserUtils::sort_by_date`
    /// produces and `lemma_sort_by_date_sorted` guarantees: render the
    /// listing and home page from all entries, then for each stale entry
    /// render its page into `output` and record its timestamp in `cache`;
    /// fresh entries are skipped untouched.  A template failure aborts
    /// with an error; entries not reached keep their state.  Minifier
    /// failures are not fatal: the unminified bytes are used and the
    /// fallback is reported.
    #[verifier::rlimit(100)]
    #[verifier::spinoff_prover]
    #[verifier::loop_isolation(false)]
    pub fn render_templates(
        entries: &Vec<Entry>,
        c: &Config,
        t: &Templates,
        cache: &mut ChangeCache,
        output: &mut ByteMap,
    ) -> (r: Result<BuildReport, RenderError>)
        requires
            distinct_permalinks(entries@),
            sorted_by_date(entries@),
        ensures
            (r is Ok) == build_ok(
                *c,
                t.home@,
                t.page@,
                t.listing@,
                entries@,
                old(cache)@,
                old(output)@,
            ),
            r matches Ok(rep) ==> ({
                &&& spec_listing(t.listing@, entries@) matches Some(l) && spec_home(
                    *c,
                    t.home@,
                    l,
                ) matches Some(h) && rep.home_html@ == h && rep.home_minify_fallback
                    == home_fallback(*c, t.home@, l)
                &&& rep.minify_fallbacks.deep_view() == fallback_permalinks(
                    entries@,
                    *c,
                    t.page@,
                    old(cache)@,
                    old(output)@,
                )
                &&& rep.rendered.deep_view() == stale_permalinks(
                    entries@,
                    old(cache)@,
                    old(output)@,
                )
                &&& rep.skipped.deep_view() == fresh_permalinks(
                    entries@,
                    old(cache)@,
                    old(output)@,
                )
                &&& forall|k: int|
                    #![trigger entries@[k]]
                    0 <= k < entries@.len() ==> entry_done(
                        *c,
                        t.page@,
                        entries@[k],
                        old(cache)@,
                        old(output)@,
                        final(cache)@,
                        final(output)@,
                    )
            }),
            others_untouched(entries@, old(cache)@, final(cache)@, old(output)@, final(output)@),
    {
        let ghost c0 = cache@;
        let ghost o0 = output@;
        let listing = match render_blog_list(t.listing.as_slice(), entries) {
            Some(l) => l,
            None => {
                proof {
                    assert(others_untouched(entries@, cache@, cache@, output@, output@));
                }
                return Err(RenderError::TemplateFailed);
            },
        };
        let (home, home_warned) = match render_home(c, t.home.as_slice(), listing.as_slice()) {
            Some(h) => h,
            None => {
                proof {
                    assert(others_untouched(entries@, cache@, cache@, output@, output@));
                }
                return Err(RenderError::TemplateFailed);
            },
        };
        let mut rendered: Vec<Vec<u8>> = Vec::new();
        let mut skipped: Vec<Vec<u8>> = Vec::new();
        let mut fallbacks: Vec<Vec<u8>> = Vec::new();
        let mut k: usize = 0;
        proof {
            assert(entries@.take(0) =~= Seq::<Entry>::empty());
            assert(rendered.deep_view() =~= Seq::<Seq<u8>>::empty());
            assert(skipped.deep_view() =~= Seq::<Seq<u8>>::empty());
            assert(fallbacks.deep_view() =~= Seq::<Seq<u8>>::empty());
        }
        while k < entries.len()
            invariant
                k <= entries@.len(),
                distinct_permalinks(entries@),
                c0 == old(cache)@,
                o0 == old(output)@,
                forall|q: Seq<u8>|
                    !key_of(entries@.take(k as int), q) ==> #[trigger] map_untouched_at(
                        c0,
                        cache@,
                        q,
                    ) && map_untouched_at(o0, output@, q),
                forall|kk: int|
                    #![trigger entries@[kk]]
                    0 <= kk < k ==> entry_done(*c, t.page@, entries@[kk], c0, o0, cache@, output@),
                rendered.deep_view() == stale_permalinks(entries@.take(k as int), c0, o0),
                skipped.deep_view() == fresh_permalinks(entries@.take(k as int), c0, o0),
                fallbacks.deep_view() == fallback_permalinks(
                    entries@.take(k as int),
                    *c,
                    t.page@,
                    c0,
                    o0,
                ),
            decreases entries@.len() - k,
        {
            let ghost k0 = k as int;
            let ghost pre_cache = cache@;
            let ghost pre_output = output@;
            let ghost pre_rendered = rendered.deep_view();
            let ghost pre_skipped = skipped.deep_view();
            let ghost pre_falls = fallbacks.deep_view();
            let e = &entries[k];
            let ghost p = e.permalink@;
            proof {
                assert(!key_of(entries@.take(k0), p));
                assert(map_untouched_at(c0, cache@, p) && map_untouched_at(o0, output@, p));
            }
            let art = output.contains(e.permalink.as_slice());
            let fresh = cache.is_fresh(
                e.permalink.as_slice(),
                e.updated_at.as_slice(),
                art,
            );
            proof {
                assert(fresh == !stale(c0, o0, entries@[k0]));
                assert(entries@.take(k0 + 1).drop_last() =~= entries@.take(k0));
                assert(entries@.take(k0 + 1).last() == entries@[k0]);
            }
            if fresh {
                skipped.push(crate::bytes::clone_bytes(&e.permalink));
                proof {
                    assert(skipped.deep_view() =~~= pre_skipped.push(p));
                    assert(pre_skipped + seq![p] =~= pre_skipped.push(p));
                    assert(pre_rendered + Seq::<Seq<u8>>::empty() =~= pre_rendered);
                    assert(pre_falls + Seq::<Seq<u8>>::empty() =~= pre_falls);
                }
            } else {
                let (html, mwarn) = match render_page(c, t.page.as_slice(), e) {
                    Some(h) => h,
                    None => {
                        proof {
                            assert(stale(c0, o0, entries@[k0]) && spec_page(
                                *c,
                                t.page@,
                                entries@[k0],
                            ) is None);
                            assert(!pages_ok(*c, t.page@, entries@, c0, o0));
                            assert forall|q: Seq<u8>| !key_of(entries@, q) implies #[trigger]
                                map_untouched_at(c0, cache@, q) && map_untouched_at(
                                o0,
                                output@,
                                q,
                            ) by {
                                assert(!key_of(entries@.take(k0), q)) by {
                                    if key_of(entries@.take(k0), q) {
                                        let w = choose|w: int|
                                            0 <= w < entries@.take(k0).len() && entries@.take(
                                                k0,
                                            )[w].permalink@ == q;
                                        assert(0 <= w < entries@.len() && entries@[w].permalink@
                                            == q);
                                    }
                                }
                            }
                        }
                        proof {
                            assert(others_untouched(
                                entries@,
                                old(cache)@,
                                cache@,
                                old(output)@,
                                output@,
                            ));
                        }
                        return Err(RenderError::TemplateFailed);
                    },
                };
                output.insert(e.permalink.as_slice(), html.as_slice());
                cache.record(e.permalink.as_slice(), e.updated_at.as_slice());
                rendered.push(crate::bytes::clone_bytes(&e.permalink));
                if mwarn {
                    fallbacks.push(crate::bytes::clone_bytes(&e.permalink));
                }
                proof {
                    assert(rendered.deep_view() =~~= pre_rendered.push(p));
                    assert(pre_rendered + seq![p] =~= pre_rendered.push(p));
                    assert(pre_skipped + Seq::<Seq<u8>>::empty() =~= pre_skipped);
                    assert(mwarn == page_fallback(*c, t.page@, entries@[k0]));
                    if mwarn {
                        assert(fallbacks.deep_view() =~~= pre_falls.push(p));
                        assert(pre_falls + seq![p] =~= pre_falls.push(p));
                    } else {
                        assert(pre_falls + Seq::<Seq<u8>>::empty() =~= pre_falls);
                    }
                    assert(entry_done(*c, t.page@, entries@[k0], c0, o0, cache@, output@));
                    assert forall|kk: int|
                        #![trigger entries@[kk]]
                        0 <= kk < k0 implies entry_done(
                        *c,
                        t.page@,
                        entries@[kk],
                        c0,
                        o0,
                        cache@,
                        output@,
                    ) by {
                        assert(entries@[k0].permalink@ == p);
                        assert(entries@[kk].permalink@ != p);
                        assert(entry_done(*c, t.page@, entries@[kk], c0, o0, pre_cache, pre_output));
                    }
                    assert forall|q: Seq<u8>| !key_of(entries@.take(k0 + 1), q) implies #[trigger]
                        map_untouched_at(c0, cache@, q) && map_untouched_at(o0, output@, q) by {
                        assert(!key_of(entries@.take(k0), q)) by {
                            if key_of(entries@.take(k0), q) {
                                let w = choose|w: int|
                                    0 <= w < entries@.take(k0).len() && entries@.take(
                                        k0,
                                    )[w].permalink@ == q;
                                assert(0 <= w < entries@.take(k0 + 1).len() && entries@.take(
                                    k0 + 1,
                                )[w].permalink@ == q);
                            }
                        }
                        assert(q != p) by {
                            if q == p {
                                assert(entries@.take(k0 + 1)[k0].permalink@ == q);
                            }
                        }
                        assert(map_untouched_at(c0, pre_cache, q) && map_untouched_at(
                            o0,
                            pre_output,
                            q,
                        ));
                    }
                }
            }
            proof {
                assert forall|q: Seq<u8>| !key_of(entries@.take(k0 + 1), q) implies !key_of(
                    entries@.take(k0),
                    q,
                ) by {
                    if key_of(entries@.take(k0), q) {
                        let w = choose|w: int|
                            0 <= w < entries@.take(k0).len() && entries@.take(k0)[w].permalink@
                                == q;
                        assert(0 <= w < entries@.take(k0 + 1).len() && entries@.take(k0 + 1)[
                            w].permalink@ == q);
                    }
                }
            }
            k += 1;
        }
        proof {
            assert(entries@.take(k as int) =~= entries@);
            assert(entries@.take(entries@.len() as int) =~= entries@);
            assert forall|q: Seq<u8>| !key_of(entries@, q) implies #[trigger] map_untouched_at(
                old(cache)@,
                cache@,
                q,
            ) && map_untouched_at(old(output)@, output@, q) by {
                assert(!key_of(entries@.take(k as int), q));
                assert(map_untouched_at(c0, cache@, q) && map_untouched_at(o0, output@, q));
            }
        }
        proof {
            assert(others_untouched(entries@, old(cache)@, cache@, old(output)@, output@));
        }
        Ok(
            BuildReport {
                home_html: home,
                home_minify_fallback: home_warned,
                rendered,
                skipped,
                minify_fallbacks: fallbacks,
            },
        )
    }
}

/// When every entry is fresh in the state a run starts from, that run
/// re-renders nothing and leaves the output tree untouched: a second run
/// over unchanged data writes no artifact.
pub proof fn lemma_clean_rebuild(
    s: Seq<Entry>,
    c_map: Map<Seq<u8>, Seq<u8>>,
    o_map: Map<Seq<u8>, Seq<u8>>,
)
    requires
        forall|k: int|
            #![trigger s[k]]
            0 <= k < s.len() ==> !stale(c_map, o_map, s[k]),
    ensures
        stale_permalinks(s, c_map, o_map) == Seq::<Seq<u8>>::empty(),
    decreases s.len(),
{
    if s.len() > 0 {
        lemma_clean_rebuild(s.drop_last(), c_map, o_map);
        assert(s.drop_last().len() < s.len());
        assert(stale_permalinks(s, c_map, o_map) =~= Seq::<Seq<u8>>::empty());
    }
}

/// After a successful run, every entry of that run is fresh in the state
/// the run left behind; with `lemma_clean_rebuild`, running again with
/// unchanged entries renders nothing.
pub proof fn lemma_second_run_fresh(
    c: Config,
    tpl: Seq<u8>,
    s: Seq<Entry>,
    c0: Map<Seq<u8>, Seq<u8>>,
    o0: Map<Seq<u8>, Seq<u8>>,
    c1: Map<Seq<u8>, Seq<u8>>,
    o1: Map<Seq<u8>, Seq<u8>>,
)
    requires
        forall|k: int|
            #![trigger s[k]]
            0 <= k < s.len() ==> entry_done(c, tpl, s[k], c0, o0, c1, o1),
    ensures
        forall|k: int| #![trigger s[k]] 0 <= k < s.len() ==> !stale(c1, o1, s[k]),
{
    assert forall|k: int| #![trigger s[k]] 0 <= k < s.len() implies !stale(c1, o1, s[k]) by {
        assert(entry_done(c, tpl, s[k], c0, o0, c1, o1));
    }
}

} // verus!
