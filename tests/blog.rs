use static_blog::date::{format_date, parse_date, Date};
use static_blog::error::SiteError;
use static_blog::markdown::{extract_metadata, metadata_from_events, render_markdown, SyntaxOptions};
use static_blog::post::{fill_post_template, output_path, render_post, slug_from_path, Post};
use static_blog::site::{build_index, build_site, sort_posts, SourceDoc};
use static_blog::text::{find, replace, split_once};

const POST_TEMPLATE: &str = "<html><title>{title}</title><body>{body}</body></html>";
const INDEX_TEMPLATE: &str = "<html><main>{body}</main></html>";

fn date(year: i32, month: u32, day: u32) -> Date {
    Date { year, month, day }
}

fn opts() -> SyntaxOptions {
    SyntaxOptions::standard()
}

fn doc(path: &str, content: &str) -> SourceDoc {
    SourceDoc { path: path.to_string(), content: content.to_string() }
}

fn post(slug: &str, title: &str, d: Date) -> Post {
    Post { slug: slug.to_string(), title: title.to_string(), date: d, html: String::new() }
}

#[test]
fn title_and_date_from_events() {
    let events = vec![None, Some("Hello".to_string()), None, Some("3.7.24".to_string()), Some("x".to_string())];
    let (title, d) = metadata_from_events(&events).unwrap();
    assert_eq!(title, "Hello");
    assert_eq!(d, date(2024, 3, 7));
}

#[test]
fn title_and_date_from_markdown() {
    let (title, d) = extract_metadata("# Hello\n\n3.7.24\n\nBody text.\n", opts()).unwrap();
    assert_eq!(title, "Hello");
    assert_eq!(d, date(2024, 3, 7));
}

#[test]
fn one_text_run_is_not_enough() {
    let events = vec![Some("Hello".to_string()), None];
    assert_eq!(metadata_from_events(&events), Err(SiteError::DocumentMetadata));
}

#[test]
fn bad_date_token_is_metadata_error() {
    assert_eq!(extract_metadata("# Hello\n\nyesterday\n", opts()), Err(SiteError::DocumentMetadata));
}

#[test]
fn image_only_document_has_no_metadata() {
    assert_eq!(extract_metadata("![](a.png)\n", opts()), Err(SiteError::DocumentMetadata));
}

#[test]
fn date_end_of_century_year() {
    // The year is 2000 + YY.
    assert_eq!(parse_date("12.31.99"), Some(date(2099, 12, 31)));
}

#[test]
fn date_first_day_of_century() {
    assert_eq!(parse_date("1.1.00"), Some(date(2000, 1, 1)));
}

#[test]
fn date_invalid_february_day() {
    assert_eq!(parse_date("2.30.24"), None);
}

#[test]
fn date_leap_days() {
    assert_eq!(parse_date("2.29.24"), Some(date(2024, 2, 29)));
    assert_eq!(parse_date("2.29.23"), None);
    assert_eq!(parse_date("4.31.24"), None);
}

#[test]
fn date_leading_zeros_accepted() {
    assert_eq!(parse_date("03.07.24"), Some(date(2024, 3, 7)));
}

#[test]
fn date_wrong_shapes() {
    assert_eq!(parse_date("3.7.2024"), None);
    assert_eq!(parse_date("3.7.4"), None);
    assert_eq!(parse_date("3.7"), None);
    assert_eq!(parse_date("3.7.24.1"), None);
    assert_eq!(parse_date("a.7.24"), None);
    assert_eq!(parse_date(".7.24"), None);
    assert_eq!(parse_date("13.1.24"), None);
    assert_eq!(parse_date("0.1.24"), None);
    assert_eq!(parse_date("99999999999.1.24"), None);
    assert_eq!(parse_date(""), None);
}

#[test]
fn date_printed_short() {
    assert_eq!(format_date(date(2024, 3, 7)), "3.7.24");
    assert_eq!(format_date(date(2005, 12, 1)), "12.1.05");
    assert_eq!(format_date(date(2099, 10, 31)), "10.31.99");
}

#[test]
fn template_substitution_verbatim() {
    let page = fill_post_template("<html>{title}...{body}...</html>", "T", "<p>B</p>").unwrap();
    assert_eq!(page, "<html>T...<p>B</p>...</html>");
}

#[test]
fn template_title_everywhere_body_first() {
    let page = fill_post_template("{title}|{body}|{title}|{body}", "T", "B").unwrap();
    assert_eq!(page, "T|B|T|{body}");
}

#[test]
fn template_without_title_marker() {
    assert_eq!(fill_post_template("<html>{body}</html>", "T", "B"), Err(SiteError::TemplateConfiguration));
}

#[test]
fn template_without_body_marker() {
    assert_eq!(fill_post_template("<html>{title}</html>", "T", "B"), Err(SiteError::TemplateConfiguration));
}

#[test]
fn template_body_marker_only_in_title() {
    assert_eq!(fill_post_template("{title}", "{body}", "B"), Err(SiteError::TemplateConfiguration));
}

#[test]
fn render_post_body_marker_only_in_title() {
    let r = render_post("markdown/x.md", "markdown/", "{body}\n\n3.7.24\n", "{title}", opts());
    assert!(matches!(r, Err(SiteError::TemplateConfiguration)));
}

#[test]
fn template_title_brings_a_body_marker() {
    let page = fill_post_template("{title}X{body}Y", "{body}", "B").unwrap();
    assert_eq!(page, "BX{body}Y");
}

#[test]
fn markdown_renders_html() {
    let mut out = String::from("<main>");
    render_markdown(&mut out, "B", opts());
    assert_eq!(out, "<main><p>B</p>\n");
}

#[test]
fn markdown_strikethrough_enabled() {
    let mut out = String::new();
    render_markdown(&mut out, "~~gone~~", opts());
    assert_eq!(out, "<p><del>gone</del></p>\n");
}

#[test]
fn slug_and_output_path() {
    let slug = slug_from_path("markdown/2024-03-07-hello.md", "markdown/");
    assert_eq!(slug, "2024-03-07-hello");
    assert_eq!(output_path(&slug), "posts/2024-03-07-hello.html");
}

#[test]
fn slug_without_extension_or_root() {
    assert_eq!(slug_from_path("notes/plain", "markdown/"), "notes/plain");
    assert_eq!(slug_from_path("markdown/a.b.md", "markdown/"), "a.b");
}

#[test]
fn render_one_post() {
    let p = render_post("markdown/2024-03-07-hello.md", "markdown/", "# Hello\n\n3.7.24\n", POST_TEMPLATE, opts()).unwrap();
    assert_eq!(p.slug, "2024-03-07-hello");
    assert_eq!(p.title, "Hello");
    assert_eq!(p.date, date(2024, 3, 7));
    assert_eq!(p.html, "<html><title>Hello</title><body><h1>Hello</h1>\n<p>3.7.24</p>\n</body></html>");
}

#[test]
fn render_post_metadata_error_comes_first() {
    let r = render_post("markdown/x.md", "markdown/", "only one", "no markers", opts());
    assert!(matches!(r, Err(SiteError::DocumentMetadata)));
}

#[test]
fn sort_descending_by_date() {
    let posts = vec![post("a", "A", date(2024, 1, 1)), post("b", "B", date(2023, 6, 15)), post("c", "C", date(2024, 6, 1))];
    let sorted = sort_posts(posts);
    let dates: Vec<Date> = sorted.iter().map(|p| p.date).collect();
    assert_eq!(dates, vec![date(2024, 6, 1), date(2024, 1, 1), date(2023, 6, 15)]);
}

#[test]
fn sort_keeps_order_of_equal_dates() {
    let posts = vec![
        post("first", "1", date(2024, 5, 5)),
        post("old", "0", date(2020, 1, 1)),
        post("second", "2", date(2024, 5, 5)),
        post("new", "3", date(2025, 1, 1)),
        post("third", "4", date(2024, 5, 5)),
    ];
    let slugs: Vec<String> = sort_posts(posts).into_iter().map(|p| p.slug).collect();
    assert_eq!(slugs, vec!["new", "first", "second", "third", "old"]);
}

#[test]
fn index_lists_cards() {
    let posts = vec![post("a", "Alpha", date(2024, 3, 7))];
    let index = build_index(&posts, INDEX_TEMPLATE).unwrap();
    assert_eq!(
        index,
        "<html><main><div class=\"card\"><a href=\"posts/a.html\">Alpha</a><p class=\"date\">3.7.24</p></div></main></html>"
    );
}

#[test]
fn index_without_body_marker() {
    assert_eq!(build_index(&vec![], "<html></html>"), Err(SiteError::TemplateConfiguration));
}

fn three_docs() -> Vec<SourceDoc> {
    vec![
        doc("markdown/one.md", "# One\n\n1.1.24\n"),
        doc("markdown/two.md", "# Two\n\n6.15.23\n"),
        doc("markdown/three.md", "# Three\n\n6.1.24\n"),
    ]
}

#[test]
fn site_index_newest_first() {
    let site = build_site(&three_docs(), "markdown/", POST_TEMPLATE, INDEX_TEMPLATE, opts()).unwrap();
    let slugs: Vec<&str> = site.posts.iter().map(|p| p.slug.as_str()).collect();
    assert_eq!(slugs, vec!["three", "one", "two"]);
    let a = site.index.find("posts/three.html").unwrap();
    let b = site.index.find("posts/one.html").unwrap();
    let c = site.index.find("posts/two.html").unwrap();
    assert!(a < b && b < c);
    assert!(site.index.contains("6.15.23"));
}

#[test]
fn site_ties_in_discovery_order() {
    let docs = vec![
        doc("markdown/b.md", "# B\n\n2.2.22\n"),
        doc("markdown/a.md", "# A\n\n2.2.22\n"),
    ];
    let site = build_site(&docs, "markdown/", POST_TEMPLATE, INDEX_TEMPLATE, opts()).unwrap();
    assert_eq!(site.posts[0].slug, "b");
    assert_eq!(site.posts[1].slug, "a");
    assert!(site.index.find("posts/b.html").unwrap() < site.index.find("posts/a.html").unwrap());
}

#[test]
fn site_build_twice_identical() {
    let first = build_site(&three_docs(), "markdown/", POST_TEMPLATE, INDEX_TEMPLATE, opts()).unwrap();
    let second = build_site(&three_docs(), "markdown/", POST_TEMPLATE, INDEX_TEMPLATE, opts()).unwrap();
    assert_eq!(first.index, second.index);
    assert_eq!(first.posts.len(), second.posts.len());
    for (x, y) in first.posts.iter().zip(second.posts.iter()) {
        assert_eq!(x.slug, y.slug);
        assert_eq!(x.html, y.html);
    }
}

#[test]
fn site_fails_on_image_only_document() {
    let mut docs = three_docs();
    docs.push(doc("markdown/pic.md", "![](pic.png)\n"));
    let r = build_site(&docs, "markdown/", POST_TEMPLATE, INDEX_TEMPLATE, opts());
    assert!(matches!(r, Err(SiteError::DocumentMetadata)));
}

#[test]
fn site_fails_on_bad_index_template() {
    let r = build_site(&three_docs(), "markdown/", POST_TEMPLATE, "<html></html>", opts());
    assert!(matches!(r, Err(SiteError::TemplateConfiguration)));
}

#[test]
fn site_of_no_documents() {
    let site = build_site(&vec![], "markdown/", POST_TEMPLATE, INDEX_TEMPLATE, opts()).unwrap();
    assert!(site.posts.is_empty());
    assert_eq!(site.index, "<html><main></main></html>");
}

#[test]
fn text_helpers() {
    assert_eq!(find("ab{body}cd", "{body}"), Some(2));
    assert_eq!(find("abc", "{body}"), None);
    assert_eq!(replace("x{t}y{t}", "{t}", "Z"), "xZyZ");
    assert_eq!(replace("aaa", "aa", "b"), "ba");
    assert_eq!(split_once("a|b|c", "|"), Some(("a".to_string(), "b|c".to_string())));
    assert_eq!(split_once("abc", "|"), None);
}
