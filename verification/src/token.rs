//! The token model: lexical categories, the concrete token value, and the
//! keyword table that classifies identifier-shaped lexemes.

use vstd::prelude::*;

verus! {

/// The closed set of lexical categories.
#[derive(Clone, Copy, Debug, PartialEq, Eq, Structural)]
pub enum Kind {
    Illegal,
    Eof,
    Ident,
    Int,
    Assign,
    Plus,
    Minus,
    Asterix,
    Slash,
    Bang,
    Lt,
    Gt,
    Eq,
    Ne,
    Comma,
    SemiColon,
    LParen,
    RParen,
    LBrace,
    RBrace,
    Function,
    Let,
    True,
    False,
    If,
    Else,
    Return,
}

/// The mathematical value of a token: its category and the text of its lexeme.
pub struct TokenV {
    pub kind: Kind,
    pub text: Seq<char>,
}

/// A classified lexical unit: category plus the literal text copied from the
/// source.
#[derive(Debug, PartialEq)]
pub struct Token {
    pub kind: Kind,
    pub literal: String,
}

impl View for Token {
    type V = TokenV;

    open spec fn view(&self) -> TokenV {
        TokenV { kind: self.kind, text: self.literal@ }
    }
}

impl Clone for Token {
    fn clone(&self) -> (t: Token)
        ensures
            t@ == self@,
    {
        Token { kind: self.kind, literal: self.literal.clone() }
    }
}

impl Token {
    pub fn new(kind: Kind, literal: String) -> (t: Token)
        ensures
            t@ == (TokenV { kind: kind, text: literal@ }),
    {
        Token { kind, literal }
    }
}

/// The keyword mapping: the category of an identifier-shaped lexeme.
/// Anything not in the table is a plain identifier.
pub open spec fn spec_lookup_ident(s: Seq<char>) -> Kind {
    if s == "fn"@ {
        Kind::Function
    } else if s == "let"@ {
        Kind::Let
    } else if s == "true"@ {
        Kind::True
    } else if s == "false"@ {
        Kind::False
    } else if s == "if"@ {
        Kind::If
    } else if s == "else"@ {
        Kind::Else
    } else if s == "return"@ {
        Kind::Return
    } else {
        Kind::Ident
    }
}

/// Compares two string slices character by character.
fn str_eq(a: &str, b: &str) -> (r: bool)
    ensures
        r == (a@ == b@),
{
    let na = a.unicode_len();
    let nb = b.unicode_len();
    if na != nb {
        assert(a@ != b@) by {
            assert(a@.len() != b@.len());
        }
        return false;
    }
    let mut i: usize = 0;
    while i < na
        invariant
            na == a@.len(),
            nb == b@.len(),
            na == nb,
            i <= na,
            forall|j: int| 0 <= j < i ==> a@[j] == b@[j],
        decreases na - i,
    {
        if a.get_char(i) != b.get_char(i) {
            return false;
        }
        i += 1;
    }
    proof {
        assert(a@ =~= b@);
    }
    true
}

/// Classifies an identifier-shaped lexeme: a keyword's category where the
/// table has it, otherwise a plain identifier.
pub fn lookup_ident(ident: &str) -> (k: Kind)
    ensures
        k == spec_lookup_ident(ident@),
{
    if str_eq(ident, "fn") {
        Kind::Function
    } else if str_eq(ident, "let") {
        Kind::Let
    } else if str_eq(ident, "true") {
        Kind::True
    } else if str_eq(ident, "false") {
        Kind::False
    } else if str_eq(ident, "if") {
        Kind::If
    } else if str_eq(ident, "else") {
        Kind::Else
    } else if str_eq(ident, "return") {
        Kind::Return
    } else {
        Kind::Ident
    }
}

} // verus!
