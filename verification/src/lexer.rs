//! The tokenizer: consumes source text one character at a time and produces
//! tokens on demand until the input is exhausted.
//!
//! The specification side defines `tokens_from`, the full token sequence of a
//! character sequence, and the executable `Lexer` is proved to yield exactly
//! that sequence, one token per call of `next`.

use vstd::prelude::*;

use crate::token::{spec_lookup_ident, Kind, Token, TokenV};

verus! {

/// The whitespace characters skipped between tokens.
pub open spec fn ws_char(c: char) -> bool {
    c == ' ' || c == '\t' || c == '\n' || c == '\r'
}

/// The characters an identifier-shaped run is made of: ASCII letters and the
/// underscore.
pub open spec fn ident_char(c: char) -> bool {
    ('a' <= c && c <= 'z') || ('A' <= c && c <= 'Z') || c == '_'
}

/// The decimal digits.
pub open spec fn digit_char(c: char) -> bool {
    '0' <= c && c <= '9'
}

fn is_ws_char(c: char) -> (r: bool)
    ensures
        r == ws_char(c),
{
    c == ' ' || c == '\t' || c == '\n' || c == '\r'
}

fn is_ident_char(c: char) -> (r: bool)
    ensures
        r == ident_char(c),
{
    ('a' <= c && c <= 'z') || ('A' <= c && c <= 'Z') || c == '_'
}

fn is_digit_char(c: char) -> (r: bool)
    ensures
        r == digit_char(c),
{
    '0' <= c && c <= '9'
}

/// The length of the maximal run of identifier characters starting at `i`.
pub open spec fn ident_run_len(s: Seq<char>, i: int) -> nat
    decreases s.len() - i,
{
    if 0 <= i < s.len() && ident_char(s[i]) {
        (1 + ident_run_len(s, i + 1)) as nat
    } else {
        0
    }
}

/// The length of the maximal run of digits starting at `i`.
pub open spec fn digit_run_len(s: Seq<char>, i: int) -> nat
    decreases s.len() - i,
{
    if 0 <= i < s.len() && digit_char(s[i]) {
        (1 + digit_run_len(s, i + 1)) as nat
    } else {
        0
    }
}

/// The position right after the token that starts at `i` (which must hold a
/// non-whitespace character).
pub open spec fn token_end(s: Seq<char>, i: int) -> int {
    let c = s[i];
    if (c == '=' || c == '!') && i + 1 < s.len() && s[i + 1] == '=' {
        i + 2
    } else if ident_char(c) {
        i + 1 + ident_run_len(s, i + 1)
    } else if digit_char(c) {
        i + 1 + digit_run_len(s, i + 1)
    } else {
        i + 1
    }
}

/// The token that starts at position `i` of `s` (a non-whitespace position).
/// A character that starts no token yields the illegal token, whose literal
/// is empty.
pub open spec fn token_val(s: Seq<char>, i: int) -> TokenV {
    let c = s[i];
    let text = s.subrange(i, token_end(s, i));
    if c == '=' {
        if i + 1 < s.len() && s[i + 1] == '=' {
            TokenV { kind: Kind::Eq, text }
        } else {
            TokenV { kind: Kind::Assign, text }
        }
    } else if c == '!' {
        if i + 1 < s.len() && s[i + 1] == '=' {
            TokenV { kind: Kind::Ne, text }
        } else {
            TokenV { kind: Kind::Bang, text }
        }
    } else if c == '+' {
        TokenV { kind: Kind::Plus, text }
    } else if c == '-' {
        TokenV { kind: Kind::Minus, text }
    } else if c == '*' {
        TokenV { kind: Kind::Asterix, text }
    } else if c == '/' {
        TokenV { kind: Kind::Slash, text }
    } else if c == '<' {
        TokenV { kind: Kind::Lt, text }
    } else if c == '>' {
        TokenV { kind: Kind::Gt, text }
    } else if c == ';' {
        TokenV { kind: Kind::SemiColon, text }
    } else if c == ',' {
        TokenV { kind: Kind::Comma, text }
    } else if c == '(' {
        TokenV { kind: Kind::LParen, text }
    } else if c == ')' {
        TokenV { kind: Kind::RParen, text }
    } else if c == '{' {
        TokenV { kind: Kind::LBrace, text }
    } else if c == '}' {
        TokenV { kind: Kind::RBrace, text }
    } else if ident_char(c) {
        TokenV { kind: spec_lookup_ident(text), text }
    } else if digit_char(c) {
        TokenV { kind: Kind::Int, text }
    } else {
        TokenV { kind: Kind::Illegal, text: Seq::empty() }
    }
}

/// An identifier run never extends past the end of the text.
pub proof fn lemma_ident_run_len_bound(s: Seq<char>, i: int)
    ensures
        ident_run_len(s, i) == 0 || i + ident_run_len(s, i) <= s.len(),
    decreases s.len() - i,
{
    if 0 <= i < s.len() && ident_char(s[i]) {
        lemma_ident_run_len_bound(s, i + 1);
    }
}

/// A digit run never extends past the end of the text.
pub proof fn lemma_digit_run_len_bound(s: Seq<char>, i: int)
    ensures
        digit_run_len(s, i) == 0 || i + digit_run_len(s, i) <= s.len(),
    decreases s.len() - i,
{
    if 0 <= i < s.len() && digit_char(s[i]) {
        lemma_digit_run_len_bound(s, i + 1);
    }
}

/// A token starting inside the text ends past where it starts and not past
/// the end of the text.
pub proof fn lemma_token_end_bounds(s: Seq<char>, i: int)
    requires
        0 <= i < s.len(),
    ensures
        i < token_end(s, i) <= s.len(),
{
    lemma_ident_run_len_bound(s, i + 1);
    lemma_digit_run_len_bound(s, i + 1);
}

/// The sequence of tokens of `s` from position `i` on: whitespace is skipped,
/// and each token consumes at least one character.
pub open spec fn tokens_from(s: Seq<char>, i: int) -> Seq<TokenV>
    decreases s.len() - i
    via tokens_from_decreases_proof
{
    if !(0 <= i < s.len()) {
        Seq::empty()
    } else if ws_char(s[i]) {
        tokens_from(s, i + 1)
    } else {
        seq![token_val(s, i)] + tokens_from(s, token_end(s, i))
    }
}

#[via_fn]
proof fn tokens_from_decreases_proof(s: Seq<char>, i: int) {
    if 0 <= i < s.len() && !ws_char(s[i]) {
        lemma_token_end_bounds(s, i);
    }
}

/// No token of a source text has the end-of-input category: that category is
/// only ever introduced by the parser as padding past the end of the stream.
pub proof fn lemma_tokens_no_eof(s: Seq<char>, i: int)
    ensures
        forall|j: int|
            0 <= j < tokens_from(s, i).len() ==> (#[trigger] tokens_from(s, i)[j]).kind
                != Kind::Eof,
    decreases s.len() - i,
{
    if !(0 <= i < s.len()) {
    } else if ws_char(s[i]) {
        lemma_tokens_no_eof(s, i + 1);
    } else {
        lemma_token_end_bounds(s, i);
        lemma_tokens_no_eof(s, token_end(s, i));
        assert(token_val(s, i).kind != Kind::Eof);
    }
}

/// The tokenizer. It holds the source and a cursor; `new` places the cursor
/// at the start, and each call of `next` yields the next token of the text.
pub struct Lexer {
    input: String,
    position: usize,
}

impl Lexer {
    /// The cursor never leaves the text.
    pub closed spec fn wf(self) -> bool {
        self.position <= self.input@.len()
    }

    /// The source text being tokenized.
    pub closed spec fn src(self) -> Seq<char> {
        self.input@
    }

    /// The tokens not yet handed out.
    pub closed spec fn stream(self) -> Seq<TokenV> {
        tokens_from(self.input@, self.position as int)
    }

    pub fn new(input: String) -> (l: Lexer)
        ensures
            l.wf(),
            l.src() == input@,
            l.stream() == tokens_from(input@, 0),
    {
        Lexer { input, position: 0 }
    }

    /// The stream of a tokenizer never holds the end-of-input category.
    pub proof fn lemma_stream_no_eof(self)
        ensures
            forall|j: int|
                0 <= j < self.stream().len() ==> (#[trigger] self.stream()[j]).kind != Kind::Eof,
    {
        lemma_tokens_no_eof(self.input@, self.position as int);
    }

    /// Moves the cursor past any whitespace.
    fn skip_whitespace(&mut self)
        requires
            old(self).wf(),
        ensures
            final(self).wf(),
            final(self).src() == old(self).src(),
            final(self).stream() == old(self).stream(),
            final(self).position < final(self).src().len() ==> !ws_char(
                final(self).src()[final(self).position as int],
            ),
    {
        let n: usize = self.input.as_str().unicode_len();
        while self.position < n && is_ws_char(self.input.as_str().get_char(self.position))
            invariant
                self.wf(),
                n == self.input@.len(),
                self.src() == old(self).src(),
                self.stream() == old(self).stream(),
            decreases n - self.position,
        {
            self.position = self.position + 1;
        }
    }

    /// Reads the maximal run of identifier characters at the cursor and
    /// returns its text, leaving the cursor right after it.
    fn read_identifier(&mut self) -> (r: String)
        requires
            old(self).wf(),
            old(self).position < old(self).src().len(),
            ident_char(old(self).src()[old(self).position as int]),
        ensures
            final(self).wf(),
            final(self).src() == old(self).src(),
            final(self).position == old(self).position + 1 + ident_run_len(
                old(self).src(),
                old(self).position + 1,
            ),
            r@ == old(self).src().subrange(old(self).position as int, final(self).position as int),
    {
        let start: usize = self.position;
        let n: usize = self.input.as_str().unicode_len();
        self.position = self.position + 1;
        while self.position < n && is_ident_char(self.input.as_str().get_char(self.position))
            invariant
                self.wf(),
                n == self.input@.len(),
                self.src() == old(self).src(),
                start < self.position <= n,
                ident_run_len(self.src(), start + 1) == ident_run_len(
                    self.src(),
                    self.position as int,
                ) + (self.position - start - 1),
            decreases n - self.position,
        {
            self.position = self.position + 1;
        }
        proof {
            assert(ident_run_len(self.src(), self.position as int) == 0);
        }
        let r = self.input.as_str().substring_char(start, self.position);
        r.to_owned()
    }

    /// Reads the maximal run of digits at the cursor and returns its text,
    /// leaving the cursor right after it.
    fn read_number(&mut self) -> (r: String)
        requires
            old(self).wf(),
            old(self).position < old(self).src().len(),
            digit_char(old(self).src()[old(self).position as int]),
        ensures
            final(self).wf(),
            final(self).src() == old(self).src(),
            final(self).position == old(self).position + 1 + digit_run_len(
                old(self).src(),
                old(self).position + 1,
            ),
            r@ == old(self).src().subrange(old(self).position as int, final(self).position as int),
    {
        let start: usize = self.position;
        let n: usize = self.input.as_str().unicode_len();
        self.position = self.position + 1;
        while self.position < n && is_digit_char(self.input.as_str().get_char(self.position))
            invariant
                self.wf(),
                n == self.input@.len(),
                self.src() == old(self).src(),
                start < self.position <= n,
                digit_run_len(self.src(), start + 1) == digit_run_len(
                    self.src(),
                    self.position as int,
                ) + (self.position - start - 1),
            decreases n - self.position,
        {
            self.position = self.position + 1;
        }
        proof {
            assert(digit_run_len(self.src(), self.position as int) == 0);
        }
        let r = self.input.as_str().substring_char(start, self.position);
        r.to_owned()
    }

    /// The character one past the cursor, if any.
    fn peek_char(&self) -> (r: Option<char>)
        requires
            self.wf(),
            self.position < self.src().len(),
        ensures
            match r {
                Some(c) => self.position + 1 < self.src().len() && c == self.src()[self.position
                    + 1],
                None => self.position + 1 == self.src().len(),
            },
    {
        let n: usize = self.input.as_str().unicode_len();
        if self.position + 1 < n {
            Some(self.input.as_str().get_char(self.position + 1))
        } else {
            None
        }
    }

    /// Yields the next token of the text, or nothing once the input is
    /// exhausted.
    pub fn next(&mut self) -> (r: Option<Token>)
        requires
            old(self).wf(),
        ensures
            final(self).wf(),
            final(self).src() == old(self).src(),
            match r {
                None => old(self).stream().len() == 0 && final(self).stream().len() == 0,
                Some(t) => old(self).stream().len() > 0 && t@ == old(self).stream()[0]
                    && final(self).stream() == old(self).stream().drop_first(),
            },
    {
        self.skip_whitespace();
        let n: usize = self.input.as_str().unicode_len();
        if self.position >= n {
            return None;
        }
        let ghost s = self.src();
        let ghost i = self.position as int;
        let ghost entry = *self;
        assert(entry.stream() == seq![token_val(s, i)] + tokens_from(s, token_end(s, i)));
        let c = self.input.as_str().get_char(self.position);
        let token: Token;
        if c == '=' {
            let two = match self.peek_char() {
                Some(pc) => pc == '=',
                None => false,
            };
            if two {
                self.position = self.position + 2;
                token = Token::new(Kind::Eq, "==".to_owned());
                proof {
                    reveal_strlit("==");
                    assert(token@.text =~= s.subrange(i, token_end(s, i)));
                }
            } else {
                self.position = self.position + 1;
                token = Token::new(Kind::Assign, "=".to_owned());
                proof {
                    reveal_strlit("=");
                    assert(token@.text =~= s.subrange(i, token_end(s, i)));
                }
            }
        } else if c == '!' {
            let two = match self.peek_char() {
                Some(pc) => pc == '=',
                None => false,
            };
            if two {
                self.position = self.position + 2;
                token = Token::new(Kind::Ne, "!=".to_owned());
                proof {
                    reveal_strlit("!=");
                    assert(token@.text =~= s.subrange(i, token_end(s, i)));
                }
            } else {
                self.position = self.position + 1;
                token = Token::new(Kind::Bang, "!".to_owned());
                proof {
                    reveal_strlit("!");
                    assert(token@.text =~= s.subrange(i, token_end(s, i)));
                }
            }
        } else if c == '+' || c == '-' || c == '*' || c == '/' || c == '<' || c == '>' || c == ';'
            || c == ',' || c == '(' || c == ')' || c == '{' || c == '}' {
            let kind: Kind = if c == '+' {
                Kind::Plus
            } else if c == '-' {
                Kind::Minus
            } else if c == '*' {
                Kind::Asterix
            } else if c == '/' {
                Kind::Slash
            } else if c == '<' {
                Kind::Lt
            } else if c == '>' {
                Kind::Gt
            } else if c == ';' {
                Kind::SemiColon
            } else if c == ',' {
                Kind::Comma
            } else if c == '(' {
                Kind::LParen
            } else if c == ')' {
                Kind::RParen
            } else if c == '{' {
                Kind::LBrace
            } else {
                Kind::RBrace
            };
            let lit: &str = if c == '+' {
                "+"
            } else if c == '-' {
                "-"
            } else if c == '*' {
                "*"
            } else if c == '/' {
                "/"
            } else if c == '<' {
                "<"
            } else if c == '>' {
                ">"
            } else if c == ';' {
                ";"
            } else if c == ',' {
                ","
            } else if c == '(' {
                "("
            } else if c == ')' {
                ")"
            } else if c == '{' {
                "{"
            } else {
                "}"
            };
            proof {
                reveal_strlit("+");
                reveal_strlit("-");
                reveal_strlit("*");
                reveal_strlit("/");
                reveal_strlit("<");
                reveal_strlit(">");
                reveal_strlit(";");
                reveal_strlit(",");
                reveal_strlit("(");
                reveal_strlit(")");
                reveal_strlit("{");
                reveal_strlit("}");
            }
            self.position = self.position + 1;
            token = Token::new(kind, lit.to_owned());
            proof {
                assert(token@.text =~= s.subrange(i, token_end(s, i)));
            }
        } else if is_ident_char(c) {
            let literal = self.read_identifier();
            let kind = crate::token::lookup_ident(literal.as_str());
            token = Token::new(kind, literal);
            proof {
                assert(token@.text == s.subrange(i, token_end(s, i)));
            }
        } else if is_digit_char(c) {
            let literal = self.read_number();
            token = Token::new(Kind::Int, literal);
            proof {
                assert(token@.text == s.subrange(i, token_end(s, i)));
            }
        } else {
            self.position = self.position + 1;
            token = Token::new(Kind::Illegal, String::new());
            proof {
                assert(token@.text =~= Seq::<char>::empty());
            }
        }
        proof {
            assert(token@ == token_val(s, i));
            assert(self.position as int == token_end(s, i));
            assert(self.stream() == entry.stream().drop_first()) by {
                assert(entry.stream().drop_first() =~= tokens_from(s, token_end(s, i)));
            }
        }
        Some(token)
    }
}

} // verus!
