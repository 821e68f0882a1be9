//! The token data model: a passive value type produced by the scanner,
//! together with its mathematical view used in contracts.

use vstd::prelude::*;

verus! {

/// One recognized syntactic unit of the input document.
///
/// `text` holds the decoded, trimmed textual content of the token; it is
/// empty for list tokens, whose content lives in the `lines` payload of
/// their tag, and for the `EOF` sentinel.
#[derive(Debug, PartialEq, Eq, Clone)]
pub struct Token {
    pub text: String,
    pub tag: Tag,
}

/// The discriminator selecting a token's syntactic kind.
///
/// `H(level)` carries a header level in `[1, 6]`; `UL` and `OL` carry one
/// string per list item in document order.  `A`, `IMG` and `OL` are reserved
/// kinds that the current scanning rules never produce.  `EOF` is the
/// sentinel that closes every produced sequence.
#[derive(Debug, PartialEq, Eq, Clone)]
pub enum Tag {
    H(usize),
    P,
    A,
    IMG,
    UL(Vec<String>),
    OL(Vec<String>),
    EOF,
}

/// The mathematical value of a [`Token`]: its text as a sequence of
/// characters and the view of its tag.
pub struct TokenView {
    pub text: Seq<char>,
    pub tag: TagView,
}

/// The mathematical value of a [`Tag`]: levels as unbounded integers and
/// list payloads as sequences of character sequences.
pub enum TagView {
    H(int),
    P,
    A,
    IMG,
    UL(Seq<Seq<char>>),
    OL(Seq<Seq<char>>),
    EOF,
}

impl View for Tag {
    type V = TagView;

    open spec fn view(&self) -> TagView {
        match self {
            Tag::H(level) => TagView::H(*level as int),
            Tag::P => TagView::P,
            Tag::A => TagView::A,
            Tag::IMG => TagView::IMG,
            Tag::UL(lines) => TagView::UL(lines.deep_view()),
            Tag::OL(lines) => TagView::OL(lines.deep_view()),
            Tag::EOF => TagView::EOF,
        }
    }
}

impl View for Token {
    type V = TokenView;

    open spec fn view(&self) -> TokenView {
        TokenView { text: self.text@, tag: self.tag@ }
    }
}

/// The views of a sequence of tokens, element by element.
pub open spec fn views(tokens: Seq<Token>) -> Seq<TokenView> {
    tokens.map_values(|t: Token| t@)
}

/// The sentinel token view: empty text, `EOF` tag.
pub open spec fn eof_view() -> TokenView {
    TokenView { text: Seq::empty(), tag: TagView::EOF }
}

} // verus!
