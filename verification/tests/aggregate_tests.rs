use bibcli::aggregate::{collate_citations, Citation, DecodeFailure, GroupedCitations};
use bibcli::render::render_citation_lines;

fn record(citation: &str, fullname: &str, shortname: &str) -> Citation {
    Citation {
        citation: String::from(citation),
        style_fullname: String::from(fullname),
        style_shortname: String::from(shortname),
    }
}

#[test]
fn grouped_map_keeps_per_style_order() {
    let mut g = GroupedCitations::new();
    g.add(String::from("apa"), String::from("first"));
    g.add(String::from("mla"), String::from("other"));
    g.add(String::from("apa"), String::from("second"));
    let apa = g.get("apa").unwrap();
    assert_eq!(apa, &vec![String::from("first"), String::from("second")]);
    let mla = g.get("mla").unwrap();
    assert_eq!(mla, &vec![String::from("other")]);
    assert!(g.get("vancouver").is_none());
}

#[test]
fn two_citations_of_one_style_show_in_response_order() {
    let responses = vec![Some(vec![
        record("Alpha (2020).", "APA", "apa"),
        record("Beta (2021).", "APA", "apa"),
    ])];
    let outcome = collate_citations(&responses, "apa");
    assert_eq!(
        outcome,
        Ok(Some(vec![String::from("Alpha (2020)."), String::from("Beta (2021).")]))
    );
    let lines = render_citation_lines("apa", &outcome.unwrap());
    assert_eq!(
        lines,
        vec![
            String::from("Citations in apa format:"),
            String::from("Alpha (2020)."),
            String::from("Beta (2021).")
        ]
    );
}

#[test]
fn citations_group_across_links_in_link_order() {
    let responses = vec![
        Some(vec![record("one", "APA", "apa"), record("m", "MLA", "mla")]),
        Some(vec![record("two", "APA", "apa")]),
    ];
    let outcome = collate_citations(&responses, "apa");
    assert_eq!(outcome, Ok(Some(vec![String::from("one"), String::from("two")])));
}

#[test]
fn absent_style_reports_no_citations() {
    let responses = vec![
        Some(vec![record("one", "APA", "apa")]),
        Some(vec![record("m", "MLA", "mla")]),
    ];
    let outcome = collate_citations(&responses, "vancouver");
    assert_eq!(outcome, Ok(None));
    let lines = render_citation_lines("vancouver", &outcome.unwrap());
    assert_eq!(lines, vec![String::from("No citations found in the vancouver format.")]);
}

#[test]
fn malformed_second_response_aborts_the_run() {
    let responses = vec![Some(vec![record("one", "APA", "apa")]), None];
    let outcome = collate_citations(&responses, "apa");
    assert_eq!(outcome, Err(DecodeFailure { link: 1 }));
}

#[test]
fn first_malformed_response_wins() {
    let responses = vec![None, None, Some(vec![])];
    let outcome = collate_citations(&responses, "apa");
    assert_eq!(outcome, Err(DecodeFailure { link: 0 }));
}

#[test]
fn empty_response_list_yields_no_citations() {
    let responses: Vec<Option<Vec<Citation>>> = Vec::new();
    assert_eq!(collate_citations(&responses, "apa"), Ok(None));
}

#[test]
fn duplicate_links_contribute_twice() {
    let one = vec![record("same", "APA", "apa")];
    let responses = vec![Some(one.clone()), Some(one)];
    let outcome = collate_citations(&responses, "apa");
    assert_eq!(outcome, Ok(Some(vec![String::from("same"), String::from("same")])));
}

#[test]
fn aggregation_is_idempotent_over_fixed_responses() {
    let responses = vec![
        Some(vec![record("a1", "APA", "apa"), record("n1", "Nature", "nature")]),
        Some(vec![record("a2", "APA", "apa")]),
    ];
    let first = collate_citations(&responses, "apa");
    let second = collate_citations(&responses, "apa");
    assert_eq!(first, second);
    assert_eq!(first, Ok(Some(vec![String::from("a1"), String::from("a2")])));
}

#[test]
fn group_citations_folds_a_record_list() {
    let records = vec![
        record("x", "APA", "apa"),
        record("y", "MLA", "mla"),
        record("z", "APA", "apa"),
    ];
    let g = bibcli::aggregate::group_citations(&records);
    assert_eq!(g.get("apa").unwrap(), &vec![String::from("x"), String::from("z")]);
    assert_eq!(g.get("mla").unwrap(), &vec![String::from("y")]);
    assert!(g.get("nature").is_none());
}
