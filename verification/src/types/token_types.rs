use vstd::prelude::*;

verus! {

/// A lexical unit of a pattern.
#[derive(Debug, Clone, PartialEq)]
pub enum Token {
    Epsilon,
    Literal(char),
    WildCard,
    ZeroOrMore,  // *
    OneOrMore,  // +
    ZeroOrOne,  // ?
    Repetition(usize, Option<usize>),  // {n, m}
    Alternation,  // |
    LeftParen,  // (
    RightParen,  // )
    StartAnchor,  // ^
    EndAnchor,  // $
    WordBoundary,  // \b
    NonWordBoundary,  // \B
    CharacterClass(CharClassType),
    CharacterSet(CharSetType, Vec<CharClassType>),
}

/// The kind of a group opened by `(`.
#[derive(Debug, Clone, PartialEq)]
pub enum GroupType {
    Capturing,
    NonCapturing,
}

/// Whether a bracket expression `[...]` is negated (`[^...]`).
#[derive(Debug, Clone, Copy, PartialEq, Eq, Structural)]
pub enum CharSetType {
    NonNegated,
    Negated,
}

/// One member of a bracket expression, or a shorthand class such as `\d`.
#[derive(Debug, Clone, Copy, PartialEq, Eq, Structural)]
pub enum CharClassType {
    Word,  // \w
    NonWord,  // \W
    Digit,  // \d
    NonDigit,  // \D
    Whitespace,  // \s
    NonWhitespace,  // \S
    Literal(char),
    Range(char, char),
    Any,  // matches anything
}

/// The mathematical value of a token: a bracket expression holds a sequence.
pub enum TokenView {
    Epsilon,
    Literal(char),
    WildCard,
    ZeroOrMore,
    OneOrMore,
    ZeroOrOne,
    Repetition(usize, Option<usize>),
    Alternation,
    LeftParen,
    RightParen,
    StartAnchor,
    EndAnchor,
    WordBoundary,
    NonWordBoundary,
    CharacterClass(CharClassType),
    CharacterSet(CharSetType, Seq<CharClassType>),
}

impl View for Token {
    type V = TokenView;

    open spec fn view(&self) -> TokenView {
        match self {
            Token::Epsilon => TokenView::Epsilon,
            Token::Literal(c) => TokenView::Literal(*c),
            Token::WildCard => TokenView::WildCard,
            Token::ZeroOrMore => TokenView::ZeroOrMore,
            Token::OneOrMore => TokenView::OneOrMore,
            Token::ZeroOrOne => TokenView::ZeroOrOne,
            Token::Repetition(m, n) => TokenView::Repetition(*m, *n),
            Token::Alternation => TokenView::Alternation,
            Token::LeftParen => TokenView::LeftParen,
            Token::RightParen => TokenView::RightParen,
            Token::StartAnchor => TokenView::StartAnchor,
            Token::EndAnchor => TokenView::EndAnchor,
            Token::WordBoundary => TokenView::WordBoundary,
            Token::NonWordBoundary => TokenView::NonWordBoundary,
            Token::CharacterClass(c) => TokenView::CharacterClass(*c),
            Token::CharacterSet(t, v) => TokenView::CharacterSet(*t, v@),
        }
    }
}

/// The view of a whole token sequence.
pub open spec fn tokens_view(ts: Seq<Token>) -> Seq<TokenView> {
    ts.map_values(|t: Token| t@)
}

} // verus!
