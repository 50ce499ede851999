use gisture::bytemap::ByteMap;
use gisture::cache::ChangeCache;
use gisture::config::Config;
use gisture::errors::RenderError;
use gisture::gist::collect_entries;
use gisture::gist::SourceFile;
use gisture::highlight::default_theme;
use gisture::highlight::load_default_syntaxes;
use gisture::parsers::ParserUtils;
use gisture::template::Templates;
use gisture::template::TemplateWriter;

fn mkfile(name: &str, raw: &str, created: &str, updated: &str) -> SourceFile {
    SourceFile {
        filename: name.as_bytes().to_vec(),
        raw: raw.as_bytes().to_vec(),
        description: b"desc".to_vec(),
        created_at: created.as_bytes().to_vec(),
        updated_at: updated.as_bytes().to_vec(),
        source_url: b"https://gist.example/x".to_vec(),
    }
}

fn test_config() -> Config {
    Config {
        github_username: b"octocat".to_vec(),
        blog_title: b"Blog".to_vec(),
        blog_description: b"About".to_vec(),
        blog_url: b"https://x.dev/".to_vec(),
        pages_title: b"{{ blog_title }}".to_vec(),
        minify_html: false,
        show_comments: true,
    }
}

fn test_templates() -> Templates {
    Templates {
        home: b"<ul>{{ blog_list }}</ul>".to_vec(),
        page: b"{{ page_title }}:{{ blog_contents }}".to_vec(),
        listing: b"<li>{{ page_title }}</li>".to_vec(),
    }
}

#[test]
fn markdown_renders_without_code_blocks() {
    let set = load_default_syntaxes();
    let theme = default_theme().unwrap();
    let out = ParserUtils::parse_markdown_to_html(b"# T\n\npara", &set, &theme).unwrap();
    assert_eq!(out.html, b"<h1>T</h1>\n<p>para</p>\n".to_vec());
    assert_eq!(out.replacements.len(), 0);
}

#[test]
fn highlighting_replaces_each_code_block_in_order() {
    let set = load_default_syntaxes();
    let theme = default_theme().unwrap();
    let md = "# T\n\n```rust\nlet x = 1;\n```\n\n```nosuchlanguage\nzzz\n```\n\n```c\nint y;\n```\n";
    let out = ParserUtils::parse_markdown_to_html(md.as_bytes(), &set, &theme).unwrap();
    assert_eq!(out.replacements.len(), 3);
    assert_eq!(out.warnings, vec![b"nosuchlanguage".to_vec()]);
    let html = String::from_utf8_lossy(&out.html).into_owned();
    assert!(html.contains("<pre"));
    for rep in &out.replacements {
        assert!(!rep.is_empty());
    }
}

#[test]
fn collision_last_file_wins() {
    let set = load_default_syntaxes();
    let theme = default_theme().unwrap();
    let files = vec![
        mkfile("p.blog.md", "# First\none", "2024-01-01T00:00:00Z", "2024-01-01T00:00:00Z"),
        mkfile("p.blog.md", "# Second\ntwo", "2024-01-02T00:00:00Z", "2024-01-02T00:00:00Z"),
    ];
    let out = collect_entries(&files, &set, &theme).unwrap();
    assert_eq!(out.entries.len(), 1);
    assert_eq!(out.entries[0].permalink, b"p".to_vec());
    assert_eq!(out.entries[0].title, b"Second".to_vec());
}

#[test]
fn skipped_files_are_warned_not_fatal() {
    let set = load_default_syntaxes();
    let theme = default_theme().unwrap();
    let files = vec![
        mkfile("empty.blog.md", "", "c", "u"),
        mkfile("notitle.blog.md", "plain text\nmore", "c", "u"),
        mkfile("other.txt", "# not a blog", "c", "u"),
        mkfile("good.blog.md", "# Good\nbody", "c", "u"),
    ];
    let out = collect_entries(&files, &set, &theme).unwrap();
    assert_eq!(out.entries.len(), 1);
    assert_eq!(out.skipped.len(), 2);
    assert_eq!(out.skipped[0].filename, b"empty.blog.md".to_vec());
    assert_eq!(out.skipped[1].filename, b"notitle.blog.md".to_vec());
}

#[test]
fn sort_is_newest_first() {
    let set = load_default_syntaxes();
    let theme = default_theme().unwrap();
    let files = vec![
        mkfile("old.blog.md", "# Old\n.", "2023-05-01T00:00:00Z", "u1"),
        mkfile("new.blog.md", "# New\n.", "2024-05-01T00:00:00Z", "u2"),
        mkfile("mid.blog.md", "# Mid\n.", "2023-12-01T00:00:00Z", "u3"),
    ];
    let out = collect_entries(&files, &set, &theme).unwrap();
    let sorted = ParserUtils::sort_by_date(out.entries);
    assert_eq!(sorted[0].permalink, b"new".to_vec());
    assert_eq!(sorted[1].permalink, b"mid".to_vec());
    assert_eq!(sorted[2].permalink, b"old".to_vec());
}

#[test]
fn incremental_build_end_to_end() {
    let set = load_default_syntaxes();
    let theme = default_theme().unwrap();
    let cfg = test_config();
    let tpl = test_templates();
    let mut cache = ChangeCache::new();
    let mut tree = ByteMap::new();

    let files = vec![
        mkfile("a.blog.md", "# A\nalpha", "2024-01-01T00:00:00Z", "2024-01-01T00:00:00Z"),
        mkfile("b.blog.md", "# B\nbeta", "2024-02-01T00:00:00Z", "2024-02-01T00:00:00Z"),
    ];
    let entries = ParserUtils::sort_by_date(collect_entries(&files, &set, &theme).unwrap().entries);

    let run1 = TemplateWriter::render_templates(&entries, &cfg, &tpl, &mut cache, &mut tree)
        .unwrap();
    assert_eq!(run1.rendered.len(), 2);
    assert_eq!(run1.skipped.len(), 0);
    assert!(run1.minify_fallbacks.is_empty());
    assert!(!run1.home_minify_fallback);
    assert!(tree.contains(b"a") && tree.contains(b"b"));
    assert_eq!(cache.stored(b"a"), Some(&b"2024-01-01T00:00:00Z".to_vec()));

    let run2 = TemplateWriter::render_templates(&entries, &cfg, &tpl, &mut cache, &mut tree)
        .unwrap();
    assert_eq!(run2.rendered.len(), 0);
    assert_eq!(run2.skipped.len(), 2);
    assert_eq!(run2.home_html, run1.home_html);

    let files3 = vec![
        mkfile("a.blog.md", "# A\nalpha", "2024-01-01T00:00:00Z", "2024-01-01T00:00:00Z"),
        mkfile("b.blog.md", "# B\nbeta", "2024-02-01T00:00:00Z", "2024-03-01T00:00:00Z"),
    ];
    let entries3 =
        ParserUtils::sort_by_date(collect_entries(&files3, &set, &theme).unwrap().entries);
    let run3 = TemplateWriter::render_templates(&entries3, &cfg, &tpl, &mut cache, &mut tree)
        .unwrap();
    assert_eq!(run3.rendered, vec![b"b".to_vec()]);
    assert_eq!(run3.skipped, vec![b"a".to_vec()]);
    assert_eq!(cache.stored(b"b"), Some(&b"2024-03-01T00:00:00Z".to_vec()));
    assert_eq!(cache.stored(b"a"), Some(&b"2024-01-01T00:00:00Z".to_vec()));
}

#[test]
fn zero_entries_is_clean_and_writes_nothing() {
    let cfg = test_config();
    let tpl = test_templates();
    let mut cache = ChangeCache::new();
    let mut tree = ByteMap::new();
    let entries = Vec::new();
    let rep = TemplateWriter::render_templates(&entries, &cfg, &tpl, &mut cache, &mut tree)
        .unwrap();
    assert_eq!(rep.rendered.len(), 0);
    assert_eq!(rep.skipped.len(), 0);
    assert!(!tree.contains(b"anything"));
    assert_eq!(cache.stored(b"anything"), None);
    assert_eq!(rep.home_html, b"<ul></ul>".to_vec());
}

#[test]
fn template_failure_is_fatal() {
    let set = load_default_syntaxes();
    let theme = default_theme().unwrap();
    let cfg = test_config();
    let tpl = Templates {
        home: b"{{#if}}".to_vec(),
        page: b"x".to_vec(),
        listing: b"y".to_vec(),
    };
    let mut cache = ChangeCache::new();
    let mut tree = ByteMap::new();
    let files = vec![mkfile("a.blog.md", "# A\n.", "c", "u")];
    let entries = ParserUtils::sort_by_date(collect_entries(&files, &set, &theme).unwrap().entries);
    let r = TemplateWriter::render_templates(&entries, &cfg, &tpl, &mut cache, &mut tree);
    assert_eq!(r.err(), Some(RenderError::TemplateFailed));
    assert!(!tree.contains(b"a"));
}

#[test]
fn minify_shrinks_home_page() {
    let mut cfg = test_config();
    let tpl = Templates {
        home: b"<div>\n    <p>{{ blog_title }}</p>\n</div>".to_vec(),
        page: b"{{ blog_contents }}".to_vec(),
        listing: b"".to_vec(),
    };
    let entries = Vec::new();
    let mut cache = ChangeCache::new();
    let mut tree = ByteMap::new();
    let plain = TemplateWriter::render_templates(&entries, &cfg, &tpl, &mut cache, &mut tree)
        .unwrap();
    cfg.minify_html = true;
    let mini = TemplateWriter::render_templates(&entries, &cfg, &tpl, &mut cache, &mut tree)
        .unwrap();
    assert!(mini.home_html.len() < plain.home_html.len());
}

#[test]
fn entities_are_normalized_after_highlighting() {
    let set = load_default_syntaxes();
    let theme = default_theme().unwrap();
    let md = "# T\n\nfish &amp; chips\n\n```rust\nlet x = 1;\n```\n";
    let out = ParserUtils::parse_markdown_to_html(md.as_bytes(), &set, &theme).unwrap();
    let html = String::from_utf8_lossy(&out.html).into_owned();
    assert!(html.contains("fish & chips"));
    assert!(!html.contains("&amp;"));
}
