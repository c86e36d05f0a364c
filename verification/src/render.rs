//! Request URLs and the exact lines the tool displays.
//!
//! One request URL is built per link, in link order, by joining the fixed
//! base endpoint of the remote citation service with the raw link text,
//! verbatim (no escaping or encoding).  The displayed lines are a header
//! followed by the citations of the chosen style, or a single message when
//! that style never appeared or the typed format name is unknown.

use vstd::prelude::*;
use vstd::string::*;

verus! {

/// The request URL for one link: the fixed base endpoint followed by the
/// raw link text, verbatim.
pub open spec fn spec_request_url(link: Seq<char>) -> Seq<char> {
    "https://api.citeas.org/product/"@ + link
}

/// The header line shown above the citations of a style.
pub open spec fn spec_header_line(style: Seq<char>) -> Seq<char> {
    "Citations in "@ + style + " format:"@
}

/// The line shown when no citation carries the requested style.
pub open spec fn spec_no_results_line(style: Seq<char>) -> Seq<char> {
    "No citations found in the "@ + style + " format."@
}

/// The line shown when the typed format name matches no alias.
pub open spec fn spec_invalid_format_line() -> Seq<char> {
    "Invalid format entered. Please try again with a valid format (e.g., APA, Harvard, MLA)."@
}

/// Build the request URL for one link.
pub fn build_request_url(link: &str) -> (u: String)
    ensures
        u@ == spec_request_url(link@),
{
    let mut u = String::from_str("https://api.citeas.org/product/");
    u.append(link);
    u
}

/// Build one request URL per link, in link order.
pub fn build_request_urls(links: &Vec<String>) -> (urls: Vec<String>)
    ensures
        urls@.len() == links@.len(),
        forall|i: int| 0 <= i < links@.len() ==> urls@[i]@ == spec_request_url(links@[i]@),
{
    let mut urls: Vec<String> = Vec::new();
    let n = links.len();
    let mut i: usize = 0;
    while i < n
        invariant
            n == links@.len(),
            0 <= i <= n,
            urls@.len() == i,
            forall|j: int| 0 <= j < i ==> urls@[j]@ == spec_request_url(links@[j]@),
        decreases n - i,
    {
        urls.push(build_request_url(links[i].as_str()));
        i = i + 1;
    }
    urls
}

/// The message for a format name that matches no alias.
pub fn invalid_format_line() -> (s: String)
    ensures
        s@ == spec_invalid_format_line(),
{
    String::from_str(
        "Invalid format entered. Please try again with a valid format (e.g., APA, Harvard, MLA).",
    )
}

/// The lines displayed for a collation outcome: a header followed by every
/// citation of the style in encounter order, or one no-results message.
pub fn render_citation_lines(style: &str, found: &Option<Vec<String>>) -> (lines: Vec<String>)
    ensures
        match found {
            Some(citations) => lines@.len() == 1 + citations@.len() && lines@[0]@
                == spec_header_line(style@) && (forall|i: int|
                0 <= i < citations@.len() ==> lines@[i + 1]@ == citations@[i]@),
            None => lines@.len() == 1 && lines@[0]@ == spec_no_results_line(style@),
        },
{
    let mut lines: Vec<String> = Vec::new();
    match found {
        Some(citations) => {
            let mut header = String::from_str("Citations in ");
            header.append(style);
            header.append(" format:");
            lines.push(header);
            let n = citations.len();
            let mut i: usize = 0;
            while i < n
                invariant
                    n == citations@.len(),
                    0 <= i <= n,
                    lines@.len() == 1 + i,
                    lines@[0]@ == spec_header_line(style@),
                    forall|j: int| 0 <= j < i ==> lines@[j + 1]@ == citations@[j]@,
                decreases n - i,
            {
                lines.push(citations[i].clone());
                i = i + 1;
            }
        },
        None => {
            let mut message = String::from_str("No citations found in the ");
            message.append(style);
            message.append(" format.");
            lines.push(message);
        },
    }
    lines
}

} // verus!
