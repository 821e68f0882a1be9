//! The scanner's behaviour on whole documents: paragraphs, headers, and
//! unordered lists.

use mdlex::lexer::scan;
use mdlex::token::{Tag, Token};

#[test]
fn test_paragraph() {
    let source = "this is a paragraph.
        this is a separate one.";

    let expected = vec![
        Token { text: "this is a paragraph.".to_string(), tag: Tag::P },
        Token { text: "this is a separate one.".to_string(), tag: Tag::P },
    ];

    let mut tokens: Vec<Token> = vec![];
    scan(&mut tokens, source);

    assert_eq!(tokens, expected);
}

#[test]
fn test_header() {
    let source = "
        # header 1

        ## header 2

        ### header 3

        #### header 4

        ##### header 5

        ###### header 6

        ### this is a longer header

        # this is a header with a #hashtag in the middle

        # header 1 #

        ## header 2 ##

        ### header 3 ###

        #### header 4 ####

        ##### header 5 #####

        ###### header 6 ######

        ####### not a header

        #not a header
        ";

    let mut tokens: Vec<Token> = vec![];
    scan(&mut tokens, source);

    let expected: Vec<Token> = vec![
        Token { text: "header 1".to_string(), tag: Tag::H(1) },
        Token { text: "header 2".to_string(), tag: Tag::H(2) },
        Token { text: "header 3".to_string(), tag: Tag::H(3) },
        Token { text: "header 4".to_string(), tag: Tag::H(4) },
        Token { text: "header 5".to_string(), tag: Tag::H(5) },
        Token { text: "header 6".to_string(), tag: Tag::H(6) },
        Token { text: "this is a longer header".to_string(), tag: Tag::H(3) },
        Token {
            text: "this is a header with a #hashtag in the middle".to_string(),
            tag: Tag::H(1),
        },
        Token { text: "header 1".to_string(), tag: Tag::H(1) },
        Token { text: "header 2".to_string(), tag: Tag::H(2) },
        Token { text: "header 3".to_string(), tag: Tag::H(3) },
        Token { text: "header 4".to_string(), tag: Tag::H(4) },
        Token { text: "header 5".to_string(), tag: Tag::H(5) },
        Token { text: "header 6".to_string(), tag: Tag::H(6) },
        Token { text: "####### not a header".to_string(), tag: Tag::P },
        Token { text: "#not a header".to_string(), tag: Tag::P },
        Token { text: String::new(), tag: Tag::EOF },
    ];

    for (i, t) in tokens.iter().enumerate() {
        assert_eq!(expected[i], *t, "assertion failure on tokens[{i}]");
    }
}

#[test]
fn test_unordered_list() {
    let source = "
    - this a dash list
    - to make a dash list
    - use dashes STOOOPID

    * this a star list
    * to make a star list
    * use stars STOOOPID

    + this a plus list
    + to make a plus list
    + use pluses STOOOPID
    ";

    let expected = vec![
        Token {
            text: String::new(),
            tag: Tag::UL(vec![
                "this a dash list".to_string(),
                "to make a dash list".to_string(),
                "use dashes STOOOPID".to_string(),
            ]),
        },
        Token {
            text: String::new(),
            tag: Tag::UL(vec![
                "this a star list".to_string(),
                "to make a star list".to_string(),
                "use stars STOOOPID".to_string(),
            ]),
        },
        Token {
            text: String::new(),
            tag: Tag::UL(vec![
                "this a plus list".to_string(),
                "to make a plus list".to_string(),
                "use pluses STOOOPID".to_string(),
            ]),
        },
    ];

    let mut tokens = vec![];
    scan(&mut tokens, source);

    for (i, e) in expected.iter().enumerate() {
        let t = &tokens[i];
        println!("expected: {e:?} actual: {t:?}");
        assert_eq!(e, t);
    }
}
