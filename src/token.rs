use vstd::prelude::*;

verus! {

/// A decoded numeric literal: its value is `mantissa * 10^exponent`.
///
/// The scanner gives it in normal form: a mantissa other than zero does not
/// end in a zero digit, and zero is mantissa 0 with exponent 0. `1.5` and
/// `1.50` decode to mantissa 15 and exponent -1; `42` to mantissa 42 and
/// exponent 0; `2.5e3` to mantissa 25 and exponent 2; `100` to mantissa 1 and
/// exponent 2.
#[derive(Clone, Copy, Debug, PartialEq, Eq, Structural)]
pub struct Decimal {
    pub mantissa: u64,
    pub exponent: i32,
}

/// The lexical category of a token, with its decoded payload where it has one.
#[derive(Clone, Debug)]
pub enum Kind {
    /// End of input: always the last token, with an empty span at the end.
    Eof,
    Let,
    Const,
    Identifier(String),
    Number(Decimal),
    /// `=`
    Equals,
    /// `==`
    EqualsEquals,
    /// `===`
    StrictEquals,
    /// `+`
    Plus,
    /// `;`
    Semicolon,
}

/// The mathematical value of a `Kind`: an identifier's name as characters.
pub enum KindView {
    Eof,
    Let,
    Const,
    Identifier(Seq<char>),
    Number(Decimal),
    Equals,
    EqualsEquals,
    StrictEquals,
    Plus,
    Semicolon,
}

impl View for Kind {
    type V = KindView;

    open spec fn view(&self) -> KindView {
        match self {
            Kind::Eof => KindView::Eof,
            Kind::Let => KindView::Let,
            Kind::Const => KindView::Const,
            Kind::Identifier(name) => KindView::Identifier(name@),
            Kind::Number(d) => KindView::Number(*d),
            Kind::Equals => KindView::Equals,
            Kind::EqualsEquals => KindView::EqualsEquals,
            Kind::StrictEquals => KindView::StrictEquals,
            Kind::Plus => KindView::Plus,
            Kind::Semicolon => KindView::Semicolon,
        }
    }
}

impl PartialEq for Kind {
    fn eq(&self, other: &Kind) -> (r: bool) {
        match (self, other) {
            (Kind::Eof, Kind::Eof) => true,
            (Kind::Let, Kind::Let) => true,
            (Kind::Const, Kind::Const) => true,
            (Kind::Identifier(a), Kind::Identifier(b)) => {
                let r = <String as PartialEq>::eq(a, b);
                proof {
                    assert(self@ == other@ ==> a@ == b@);
                }
                r
            },
            (Kind::Number(a), Kind::Number(b)) => a.mantissa == b.mantissa && a.exponent == b.exponent,
            (Kind::Equals, Kind::Equals) => true,
            (Kind::EqualsEquals, Kind::EqualsEquals) => true,
            (Kind::StrictEquals, Kind::StrictEquals) => true,
            (Kind::Plus, Kind::Plus) => true,
            (Kind::Semicolon, Kind::Semicolon) => true,
            _ => false,
        }
    }
}

impl vstd::std_specs::cmp::PartialEqSpecImpl for Kind {
    open spec fn obeys_eq_spec() -> bool {
        true
    }

    open spec fn eq_spec(&self, other: &Kind) -> bool {
        self@ == other@
    }
}

/// A token: its kind and the half-open byte range `[start, end)` of its
/// lexeme in the source.
#[derive(Clone, Debug)]
pub struct Token {
    pub kind: Kind,
    pub start: usize,
    pub end: usize,
}

/// The mathematical value of a `Token`.
pub struct TokenView {
    pub kind: KindView,
    pub start: int,
    pub end: int,
}

impl View for Token {
    type V = TokenView;

    open spec fn view(&self) -> TokenView {
        TokenView { kind: self.kind@, start: self.start as int, end: self.end as int }
    }
}

impl PartialEq for Token {
    fn eq(&self, other: &Token) -> (r: bool) {
        self.kind == other.kind && self.start == other.start && self.end == other.end
    }
}

impl vstd::std_specs::cmp::PartialEqSpecImpl for Token {
    open spec fn obeys_eq_spec() -> bool {
        true
    }

    open spec fn eq_spec(&self, other: &Token) -> bool {
        self@ == other@
    }
}

/// A lexical error, with the byte range `[start, end)` it concerns.
#[derive(Clone, Copy, Debug, PartialEq, Eq, Structural)]
pub enum LexError {
    /// A numeric lexeme outside the numeric grammar, or whose value does not
    /// fit a `Decimal`.
    MalformedNumber { start: usize, end: usize },
    /// A character that starts no token.
    UnrecognizedCharacter { start: usize, end: usize },
    /// A block comment that is still open at the end of input.
    UnterminatedComment { start: usize, end: usize },
}

impl LexError {
    pub open spec fn spec_start(self) -> int {
        match self {
            LexError::MalformedNumber { start, .. } => start as int,
            LexError::UnrecognizedCharacter { start, .. } => start as int,
            LexError::UnterminatedComment { start, .. } => start as int,
        }
    }

    /// Where the offending input begins.
    pub fn start(&self) -> (r: usize)
        ensures
            r == self.spec_start(),
    {
        match self {
            LexError::MalformedNumber { start, .. } => *start,
            LexError::UnrecognizedCharacter { start, .. } => *start,
            LexError::UnterminatedComment { start, .. } => *start,
        }
    }
}

} // verus!
