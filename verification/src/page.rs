//! A server entry from the answer of a local web server.
use vstd::prelude::*;
use crate::server::{ServerInfo, ServerModel, opt_chars};
use crate::text::{chars_of, contains_chars, push_str, push_decimal, trim_str, trim, has_infix, decimal};

verus! {

/// What `scraper` finds for a CSS selector in an HTML document: for each
/// matching element, in document order, the text pieces below it, in order.
/// None when the selector does not parse.
pub uninterp spec fn html_select_texts(document: Seq<char>, selector: Seq<char>) -> Option<
    Seq<Seq<Seq<char>>>,
>;

/// The text pieces of each match, as character sequences.
pub open spec fn texts_view(matches: Seq<Vec<String>>) -> Seq<Seq<Seq<char>>> {
    matches.map_values(|m: Vec<String>| m@.map_values(|t: String| t@))
}

/// Parses `document` with `scraper::Html::parse_document`, parses `selector`
/// with `scraper::Selector::parse`, and collects, for each element that
/// `Html::select` yields, the pieces of `ElementRef::text`. The result is
/// named [`html_select_texts`]; nothing more is stated of the HTML parse.
#[verifier::external_body]
fn select_texts(document: &str, selector: &str) -> (found: Option<Vec<Vec<String>>>)
    ensures
        match found {
            Some(m) => html_select_texts(document@, selector@) == Some(texts_view(m@)),
            None => html_select_texts(document@, selector@) is None,
        },
{
    let html = scraper::Html::parse_document(document);
    let selector = scraper::Selector::parse(selector).ok()?;
    let mut matches: Vec<Vec<String>> = Vec::new();
    for element in html.select(&selector) {
        let mut pieces: Vec<String> = Vec::new();
        for piece in element.text() {
            pieces.push(piece.to_string());
        }
        matches.push(pieces);
    }
    Some(matches)
}

/// Text pieces joined without separator.
pub open spec fn joined(pieces: Seq<Seq<char>>) -> Seq<char>
    decreases pieces.len(),
{
    if pieces.len() == 0 {
        Seq::empty()
    } else {
        joined(pieces.drop_last()) + pieces.last()
    }
}

/// The title of an HTML document: the joined text of its first `title`
/// element, or none without one.
pub open spec fn html_title(document: Seq<char>) -> Option<Seq<char>> {
    match html_select_texts(document, "title"@) {
        Some(m) => if m.len() > 0 {
            Some(joined(m[0]))
        } else {
            None
        },
        None => None,
    }
}

/// Joins text pieces without separator.
fn join_pieces(pieces: &Vec<String>) -> (s: String)
    ensures
        s@ == joined(pieces@.map_values(|t: String| t@)),
{
    let ghost v = pieces@.map_values(|t: String| t@);
    let mut s = String::new();
    let mut i: usize = 0;
    while i < pieces.len()
        invariant
            i <= pieces.len(),
            v == pieces@.map_values(|t: String| t@),
            s@ == joined(v.take(i as int)),
        decreases pieces.len() - i,
    {
        push_str(&mut s, pieces[i].as_str());
        assert(v.take(i + 1).drop_last() =~= v.take(i as int));
        assert(v.take(i + 1).last() == pieces@[i as int]@);
        i = i + 1;
    }
    assert(v.take(pieces.len() as int) =~= v);
    s
}

/// The title of the HTML page `document`.
pub fn document_title(document: &str) -> (title: Option<String>)
    ensures
        opt_chars(title) == html_title(document@),
{
    match select_texts(document, "title") {
        Some(matches) => {
            if matches.len() > 0 {
                Some(join_pieces(&matches[0]))
            } else {
                None
            }
        },
        None => None,
    }
}

/// The answer is an HTML page: its content type mentions `text/html`.
pub open spec fn is_html_type(content_type: Seq<char>) -> bool {
    has_infix(content_type, "text/html"@)
}

/// Whether a response with this content type is an HTML page.
pub fn is_html_response(content_type: &str) -> (html: bool)
    ensures
        html == is_html_type(content_type@),
{
    let s = chars_of(content_type);
    let marker = chars_of("text/html");
    contains_chars(s.as_slice(), marker.as_slice())
}

/// The address of a local server.
pub open spec fn localhost_url(port: u16) -> Seq<char> {
    "http://localhost:"@ + decimal(port as nat)
}

/// The address of the local server on `port`.
pub fn url_for_port(port: u16) -> (url: String)
    ensures
        url@ == localhost_url(port),
{
    let mut url = String::new();
    push_str(&mut url, "http://localhost:");
    push_decimal(&mut url, port as u32);
    assert(url@ =~= localhost_url(port));
    url
}

/// The entry for a page served on `port` whose title is `title`: the title
/// trimmed, or "Unknown Server" without one; active, with no process known yet.
pub open spec fn page_server(port: u16, title: Option<Seq<char>>) -> ServerModel {
    ServerModel {
        port: port,
        title: trim(
            match title {
                Some(t) => t,
                None => "Unknown Server"@,
            },
        ),
        url: localhost_url(port),
        pid: None,
        path: None,
        command: None,
        active: true,
        custom_name: None,
    }
}

/// The entry for a page served on `port` with the given title.
pub fn server_from_title(port: u16, title: Option<String>) -> (info: ServerInfo)
    ensures
        info@ == page_server(port, opt_chars(title)),
{
    let shown = match title {
        Some(t) => trim_str(t.as_str()),
        None => trim_str("Unknown Server"),
    };
    ServerInfo {
        port,
        title: shown,
        url: url_for_port(port),
        pid: None,
        path: None,
        command: None,
        active: true,
        custom_name: None,
    }
}

/// The entry for the HTML page `document` served on `port`.
pub fn server_from_page(port: u16, document: &str) -> (info: ServerInfo)
    ensures
        info@ == page_server(port, html_title(document@)),
{
    let title = document_title(document);
    server_from_title(port, title)
}

} // verus!
