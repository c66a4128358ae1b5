use sitegen::graph::load_pages;
use sitegen::page::from_string;
use sitegen::page::LoadError;
use sitegen::page::SourceFile;

fn src(name: &str, content: &str) -> SourceFile {
    SourceFile { name: name.to_string(), content: content.to_string() }
}

fn test_pages() -> Vec<SourceFile> {
    vec![
        src(
            "test_page_1.html",
            "<h1>First Test page</h1>\n                <p>Some text with a <a href=\"test_page_2.html\">link</a></p>\n                <h1>Another title just to be confusing</h1>\n                <p>Some more text with another <a href=\"https://www.google.com\">link</a></p>\n                <a href=\"2022-02-22-test_page_3.html\">Another link</a>",
        ),
        src(
            "test_page_2.html",
            "<h1>Second Test Page</h1>\n                <p>Let's create a cycle <a href=\"test_page_1.html\">link</a></p>\n                <p>Let's create a cycle again <a href=\"test_page_1.html\">another link</a></p>",
        ),
        src(
            "2022-02-22-test_page_3.html",
            "<h1>Need a title element else it breaks</h1><br>\n                <p>Let's create a self cycle <a href=\"2022-02-22-test_page_3.html\">link</a></p>\n                <p>Let's create a another self cycle\n                <a href=\"2022-02-22-test_page_3.html\">another link</a></p>",
        ),
        src(
            "2022-02-23-test_page_4.html",
            "<h1>Title</h1><br>\n                <p>Can't have enough <a href=\"2022-02-22-test_page_3.html#header\">links</a></p>",
        ),
        src(
            "word_count.html",
            "<h1>Title</h1><br>\n                <p>Can't have <b>enough</b> words with <a href=\"2022-02-22-test_page_3.html\">\n                links</a></p>.  Also . s in gl e && do u bl e    l e tt er s don't count. !!!",
        ),
    ]
}

#[test]
fn new_page() {
    let pages = load_pages(test_pages()).expect("pages should load");

    println!("Pages should be sorted alphabetically");
    assert_eq!(pages[0].name, "2022-02-22-test_page_3.html");
    assert_eq!(pages[1].name, "2022-02-23-test_page_4.html");
    assert_eq!(pages[1].word_count(), 5);
    assert_eq!(pages[2].name, "test_page_1.html");
    assert_eq!(pages[3].name, "test_page_2.html");
    assert_eq!(pages[4].name, "word_count.html");
    assert_eq!(pages[4].word_count(), 18);

    println!("Section links are ignored");
    assert_eq!(pages[0].links, vec!["2022-02-22-test_page_3.html"]);
    assert_eq!(pages[1].links, vec!["2022-02-22-test_page_3.html"]);
}

#[test]
fn backlinks_are_sorted_and_deduplicated() {
    let pages = load_pages(test_pages()).expect("pages should load");
    // page 3 is linked by itself, by page 4 (through a fragment link) and by
    // page 1; referrers come out sorted by name, one entry each
    assert_eq!(
        pages[0].backlinks,
        vec![
            ("2022-02-22-test_page_3.html".to_string(), "Need a title element else it breaks".to_string()),
            ("2022-02-23-test_page_4.html".to_string(), "Title".to_string()),
            ("test_page_1.html".to_string(), "First Test page".to_string()),
            ("word_count.html".to_string(), "Title".to_string()),
        ]
    );
    // page 2 links to page 1 twice; the duplicate collapses to one edge
    assert_eq!(
        pages[2].backlinks,
        vec![("test_page_2.html".to_string(), "Second Test Page".to_string())]
    );
}

#[test]
fn self_link_is_preserved() {
    let pages = load_pages(vec![src("a.html", "<h1>A</h1><a href=\"a.html\">me</a>")])
        .expect("pages should load");
    assert_eq!(pages[0].backlinks, vec![("a.html".to_string(), "A".to_string())]);
}

#[test]
fn fragment_links_resolve_to_the_same_edge() {
    let pages = load_pages(vec![
        src("a.html", "<h1>A</h1><a href=\"b.html#section\">x</a>"),
        src("b.html", "<h1>B</h1>"),
    ])
    .expect("pages should load");
    assert_eq!(pages[0].links, vec!["b.html"]);
    assert_eq!(pages[1].backlinks, vec![("a.html".to_string(), "A".to_string())]);
}

#[test]
fn external_links_make_no_edges_and_never_dangle() {
    let pages = load_pages(vec![src(
        "a.html",
        "<h1>A</h1><a href=\"https://nowhere.example/x\">x</a><a href=\"http-notes.html\">y</a><a href=\"a.html\">me</a>",
    )])
    .expect("external links must not dangle");
    // the scheme-prefixed targets stay visible among the outbound links
    assert_eq!(pages[0].links.len(), 3);
    // but only the internal self link produced a backlink edge
    assert_eq!(pages[0].backlinks, vec![("a.html".to_string(), "A".to_string())]);
}

#[test]
fn word_count_skips_single_character_tokens() {
    let page = from_string(
        "x.html".to_string(),
        "<h1>Title</h1><br><p>Can't have enough <a href=\"x.html\">links</a></p>".to_string(),
    )
    .expect("page should parse");
    assert_eq!(page.word_count(), 5);
}

#[test]
fn markdown_is_converted_and_renamed() {
    let pages = load_pages(vec![src(
        "2022-02-22-post.md",
        "# Hello World\n\nSome text with a [link](2022-02-22-post.html).\n",
    )])
    .expect("markdown page should load");
    assert_eq!(pages[0].name, "2022-02-22-post.html");
    assert_eq!(pages[0].title, "Hello World");
    assert_eq!(pages[0].date_formatted.as_deref(), Some("February 22, 2022"));
    let date = pages[0].date.expect("date prefix should parse");
    assert_eq!((date.year, date.month, date.day), (2022, 2, 22));
}

#[test]
fn missing_title_fails_the_whole_load() {
    match load_pages(vec![
        src("a.html", "<h1>A</h1>"),
        src("b.html", "<p>no heading here</p>"),
    ]) {
        Err(LoadError::MissingTitle { page }) => assert_eq!(page, "b.html"),
        _ => panic!("expected a missing-title failure"),
    }
}

#[test]
fn invalid_date_fails_the_whole_load() {
    match load_pages(vec![src("2022-13-01-x.html", "<h1>T</h1>")]) {
        Err(LoadError::InvalidDate { page }) => assert_eq!(page, "2022-13-01-x.html"),
        _ => panic!("expected an invalid-date failure"),
    }
}

#[test]
fn dangling_link_names_both_pages() {
    match load_pages(vec![src("a.html", "<h1>A</h1><a href=\"b.html\">x</a>")]) {
        Err(LoadError::DanglingLink { page, target }) => {
            assert_eq!(page, "a.html");
            assert_eq!(target, "b.html");
        },
        _ => panic!("expected a dangling-link failure"),
    }
}

#[test]
fn duplicate_names_are_rejected() {
    match load_pages(vec![src("a.md", "# T"), src("a.html", "<h1>T</h1>")]) {
        Err(LoadError::DuplicateName { name }) => assert_eq!(name, "a.html"),
        _ => panic!("expected a duplicate-name failure"),
    }
}

#[test]
fn files_without_content_extensions_are_skipped() {
    let pages = load_pages(vec![
        src("a.html", "<h1>A</h1>"),
        src("style.css", "body { color: black }"),
        src("notes.txt", "not a page"),
    ])
    .expect("pages should load");
    assert_eq!(pages.len(), 1);
    assert_eq!(pages[0].name, "a.html");
}

#[test]
fn absent_date_prefix_means_no_date() {
    let pages = load_pages(vec![src("plain.html", "<h1>T</h1>")]).expect("pages should load");
    assert!(pages[0].date.is_none());
    assert!(pages[0].date_formatted.is_none());
}

#[test]
fn leap_day_is_a_valid_date() {
    let pages = load_pages(vec![src("2024-02-29-x.html", "<h1>T</h1>")]).expect("leap day loads");
    assert_eq!(pages[0].date_formatted.as_deref(), Some("February 29, 2024"));
    match load_pages(vec![src("2023-02-29-x.html", "<h1>T</h1>")]) {
        Err(LoadError::InvalidDate { page }) => assert_eq!(page, "2023-02-29-x.html"),
        _ => panic!("expected an invalid-date failure"),
    }
}
