use gisture::config::Config;
use gisture::parsers::ParserUtils;

#[test]
fn title_from_heading_line() {
    let r = ParserUtils::extract_title(b"# Hello World\nbody");
    assert_eq!(r, Some(b"Hello World".to_vec()));
}

#[test]
fn title_strips_heading_marker_once() {
    let r = ParserUtils::extract_title(b"##  A #tag  \nrest");
    assert_eq!(r, Some(b"A #tag".to_vec()));
}

#[test]
fn title_keeps_later_marker_characters() {
    let r = ParserUtils::extract_title(b"#A#\nbody");
    assert_eq!(r, Some(b"A#".to_vec()));
}

#[test]
fn title_missing_marker() {
    assert_eq!(ParserUtils::extract_title(b"no heading here\n# later"), None);
}

#[test]
fn title_empty_file() {
    assert_eq!(ParserUtils::extract_title(b""), None);
}

#[test]
fn permalink_strips_marker_suffix() {
    assert_eq!(ParserUtils::derive_permalink(b"post.blog.md"), b"post".to_vec());
}

#[test]
fn permalink_strips_suffix_only_once_at_the_end() {
    assert_eq!(
        ParserUtils::derive_permalink(b"a.blog.md.blog.md"),
        b"a.blog.md".to_vec()
    );
    assert_eq!(ParserUtils::derive_permalink(b"xblog.md"), b"xblog.md".to_vec());
}

#[test]
fn permalink_is_deterministic() {
    let a = ParserUtils::derive_permalink(b"some-post.blog.md");
    let b = ParserUtils::derive_permalink(b"some-post.blog.md");
    assert_eq!(a, b);
    assert_eq!(a, b"some-post".to_vec());
}

#[test]
fn qualifies_by_suffix() {
    assert!(ParserUtils::qualifies(b"a.blog.md"));
    assert!(!ParserUtils::qualifies(b"a.md"));
    assert!(!ParserUtils::qualifies(b"blogmd"));
}

#[test]
fn join_url_with_trailing_slash() {
    assert_eq!(ParserUtils::join_url_path("https://x.dev/", "p"), "https://x.dev/p");
}

#[test]
fn join_url_without_trailing_slash() {
    assert_eq!(ParserUtils::join_url_path("https://x.dev", "p"), "https://x.dev/p");
}

#[test]
fn default_config_values() {
    let c = Config::default();
    assert_eq!(c.github_username, b"octocat".to_vec());
    assert_eq!(c.blog_title, b"John Wick's Pencil".to_vec());
    assert_eq!(c.blog_description, b"Rusty, I Guess.".to_vec());
    assert_eq!(c.blog_url, b"https://blog.johnwickspencil.com/".to_vec());
    assert_eq!(c.pages_title, b"{{ blog_title }} | John Wick's Pencil".to_vec());
    assert!(!c.minify_html);
    assert!(c.show_comments);
}

#[test]
fn cache_round_trip() {
    let mut cache = gisture::cache::ChangeCache::new();
    cache.record(b"p", b"T1");
    assert!(cache.is_fresh(b"p", b"T1", true));
    assert!(!cache.is_fresh(b"p", b"T2", true));
    assert!(!cache.is_fresh(b"p", b"T1", false));
    assert!(!cache.is_fresh(b"q", b"T1", true));
}

#[test]
fn cache_last_write_wins() {
    let mut cache = gisture::cache::ChangeCache::new();
    cache.record(b"p", b"T1");
    cache.record(b"p", b"T2");
    assert!(!cache.is_fresh(b"p", b"T1", true));
    assert!(cache.is_fresh(b"p", b"T2", true));
    assert_eq!(cache.stored(b"p"), Some(&b"T2".to_vec()));
}
