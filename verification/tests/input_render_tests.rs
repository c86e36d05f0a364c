use bibcli::input::{parse_links, trim_str};
use bibcli::render::{build_request_url, build_request_urls, invalid_format_line};

#[test]
fn trims_surrounding_whitespace() {
    assert_eq!(trim_str("  site.com/a \n"), String::from("site.com/a"));
    assert_eq!(trim_str("\tx\t"), String::from("x"));
    assert_eq!(trim_str("no-trim"), String::from("no-trim"));
    assert_eq!(trim_str("   "), String::from(""));
    assert_eq!(trim_str(""), String::from(""));
}

#[test]
fn parses_single_link() {
    assert_eq!(parse_links("site.com/a"), vec![String::from("site.com/a")]);
    assert_eq!(parse_links("  site.com/a\n"), vec![String::from("site.com/a")]);
}

#[test]
fn parses_multiple_links_trimming_each() {
    assert_eq!(
        parse_links(" one.org , two.org ,three.org\n"),
        vec![String::from("one.org"), String::from("two.org"), String::from("three.org")]
    );
}

#[test]
fn empty_or_whitespace_input_yields_no_links() {
    assert_eq!(parse_links(""), Vec::<String>::new());
    assert_eq!(parse_links("   \n"), Vec::<String>::new());
    assert_eq!(parse_links("\t"), Vec::<String>::new());
}

#[test]
fn empty_pieces_between_commas_are_kept() {
    assert_eq!(
        parse_links("a,,b"),
        vec![String::from("a"), String::from(""), String::from("b")]
    );
    assert_eq!(parse_links("a,"), vec![String::from("a"), String::from("")]);
}

#[test]
fn duplicate_links_are_kept() {
    assert_eq!(
        parse_links("a.org,a.org"),
        vec![String::from("a.org"), String::from("a.org")]
    );
}

#[test]
fn builds_request_url_verbatim() {
    assert_eq!(
        build_request_url("site.com/a"),
        String::from("https://api.citeas.org/product/site.com/a")
    );
    assert_eq!(build_request_url(""), String::from("https://api.citeas.org/product/"));
}

#[test]
fn builds_one_url_per_link_in_order() {
    let links = vec![String::from("a"), String::from("b"), String::from("a")];
    let urls = build_request_urls(&links);
    assert_eq!(urls.len(), 3);
    assert_eq!(
        urls,
        vec![
            String::from("https://api.citeas.org/product/a"),
            String::from("https://api.citeas.org/product/b"),
            String::from("https://api.citeas.org/product/a")
        ]
    );
}

#[test]
fn no_links_means_no_urls() {
    let links = parse_links("  \n");
    let urls = build_request_urls(&links);
    assert_eq!(urls.len(), 0);
}

#[test]
fn invalid_format_message_is_exact() {
    assert_eq!(
        invalid_format_line(),
        String::from(
            "Invalid format entered. Please try again with a valid format (e.g., APA, Harvard, MLA)."
        )
    );
}

#[test]
fn single_link_apa_scenario() {
    let links = parse_links("site.com/a");
    assert_eq!(links, vec![String::from("site.com/a")]);
    let canonical = bibcli::resolve_format("APA").unwrap();
    assert_eq!(canonical, String::from("apa"));
    let urls = build_request_urls(&links);
    assert_eq!(urls, vec![String::from("https://api.citeas.org/product/site.com/a")]);
}
