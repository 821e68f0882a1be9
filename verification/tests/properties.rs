//! Concrete instances of the scanner's general properties: the sentinel
//! discipline, header round trips and reclassification, list grouping, the
//! whitespace-only scan, and behaviour at the edges of the buffer.

use mdlex::lexer::{scan, scan_document};
use mdlex::token::{Tag, Token};

#[test]
fn sentinel_closes_every_document() {
    let tokens = scan_document("# title\nbody text\n");
    assert_eq!(tokens.len(), 3);
    assert_eq!(tokens[0], Token { text: "title".to_string(), tag: Tag::H(1) });
    assert_eq!(tokens[1], Token { text: "body text".to_string(), tag: Tag::P });
    assert_eq!(tokens[2], Token { text: String::new(), tag: Tag::EOF });
    let eof_count = tokens.iter().filter(|t| t.tag == Tag::EOF).count();
    assert_eq!(eof_count, 1);
}

#[test]
fn empty_document_yields_only_the_sentinel() {
    let tokens = scan_document("");
    assert_eq!(tokens, vec![Token { text: String::new(), tag: Tag::EOF }]);
}

#[test]
fn whitespace_only_document_yields_only_the_sentinel() {
    let tokens = scan_document(" \t\r\n   \n\t");
    assert_eq!(tokens, vec![Token { text: String::new(), tag: Tag::EOF }]);
}

#[test]
fn header_round_trip_with_and_without_closing_markers() {
    let mut tokens = vec![];
    scan(&mut tokens, "### this is a longer header");
    assert_eq!(
        tokens,
        vec![Token { text: "this is a longer header".to_string(), tag: Tag::H(3) }]
    );

    let mut tokens = vec![];
    scan(&mut tokens, "## header 2 ##");
    assert_eq!(tokens, vec![Token { text: "header 2".to_string(), tag: Tag::H(2) }]);
}

#[test]
fn header_overflow_is_a_paragraph() {
    let mut tokens = vec![];
    scan(&mut tokens, "####### not a header");
    assert_eq!(
        tokens,
        vec![Token { text: "####### not a header".to_string(), tag: Tag::P }]
    );
}

#[test]
fn hash_without_space_is_a_paragraph() {
    let mut tokens = vec![];
    scan(&mut tokens, "#not a header");
    assert_eq!(tokens, vec![Token { text: "#not a header".to_string(), tag: Tag::P }]);
}

#[test]
fn switching_delimiter_starts_a_new_list() {
    let mut tokens = vec![];
    scan(&mut tokens, "- one\n- two\n* three\n* four\n");
    assert_eq!(
        tokens,
        vec![
            Token {
                text: String::new(),
                tag: Tag::UL(vec!["one".to_string(), "two".to_string()]),
            },
            Token {
                text: String::new(),
                tag: Tag::UL(vec!["three".to_string(), "four".to_string()]),
            },
        ]
    );
}

#[test]
fn list_without_trailing_newline_is_closed() {
    let mut tokens = vec![];
    scan(&mut tokens, "+ last item");
    assert_eq!(
        tokens,
        vec![Token { text: String::new(), tag: Tag::UL(vec!["last item".to_string()]) }]
    );
}

#[test]
fn lone_hash_at_buffer_end_is_a_paragraph() {
    let mut tokens = vec![];
    scan(&mut tokens, "#");
    assert_eq!(tokens, vec![Token { text: "#".to_string(), tag: Tag::P }]);
}

#[test]
fn star_without_space_yields_nothing() {
    let mut tokens = vec![];
    scan(&mut tokens, "*emphasis*\n");
    assert_eq!(tokens, vec![Token { text: "emphasis*".to_string(), tag: Tag::P }]);
}

#[test]
fn scan_appends_to_existing_tokens() {
    let mut tokens = vec![Token { text: "already here".to_string(), tag: Tag::P }];
    scan(&mut tokens, "# next");
    assert_eq!(tokens.len(), 2);
    assert_eq!(tokens[1], Token { text: "next".to_string(), tag: Tag::H(1) });
}
