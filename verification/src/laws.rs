//! Laws of the front end that hold for whole families of inputs, proved
//! once and for all: tokenizing and parsing any single-line binding of the
//! form `let <name> = <number>;` yields exactly one `let` statement binding
//! that name to that integer literal, with no errors; and rendering is a
//! syntactic fixed point — re-tokenizing and re-parsing a rendered
//! single-statement program reproduces its rendering exactly — for the
//! well-formed expressions that the fully parenthesized rendering keeps
//! unambiguous (`if` expressions, function literals and chained calls
//! render without the braces or parentheses that re-parsing would need, so
//! they stay outside the law).

use vstd::prelude::*;

use crate::ast::{expr_text, stmt_text, stmts_text, stmts_text_from, ExprV, IdentV, StmtV};
use crate::digits::{all_digits, dec_digits, digits_val, lemma_dec_digits_value};
use crate::lexer::{
    digit_char, digit_run_len, ident_char, ident_run_len, token_end, token_val, tokens_from,
};
use crate::parser::{adv, cur, eof_tok, is_infix_op, pk, prec_of, sp_call, sp_call_args,
    sp_call_args_rest, sp_expression, sp_expression_first, sp_expression_rest, sp_grouped,
    sp_infix, sp_prefix, sp_program, sp_statement, CALL, LOWEST, PREFIX};
use crate::token::{spec_lookup_ident, Kind, TokenV};

verus! {

/// A run of identifier characters from `i` up to `k`, stopped at `k`, has
/// length exactly `k - i`.
proof fn lemma_ident_run_extent(s: Seq<char>, i: int, k: int)
    requires
        0 <= i <= k <= s.len(),
        forall|j: int| i <= j < k ==> ident_char(#[trigger] s[j]),
        k < s.len() ==> !ident_char(s[k]),
    ensures
        ident_run_len(s, i) == k - i,
    decreases k - i,
{
    if i < k {
        lemma_ident_run_extent(s, i + 1, k);
    }
}

/// A run of digits from `i` up to `k`, stopped at `k`, has length exactly
/// `k - i`.
proof fn lemma_digit_run_extent(s: Seq<char>, i: int, k: int)
    requires
        0 <= i <= k <= s.len(),
        forall|j: int| i <= j < k ==> digit_char(#[trigger] s[j]),
        k < s.len() ==> !digit_char(s[k]),
    ensures
        digit_run_len(s, i) == k - i,
    decreases k - i,
{
    if i < k {
        lemma_digit_run_extent(s, i + 1, k);
    }
}

/// The token sequence of a binding line: for every identifier `id` (that is
/// no keyword) and every digit run `n`, the text `let <id> = <n>;`
/// tokenizes to exactly the five tokens `let`, the identifier, the
/// assignment sign, the integer literal, and the semicolon.
pub proof fn lemma_let_line_tokens(id: Seq<char>, n: Seq<char>)
    requires
        id.len() > 0,
        forall|j: int| 0 <= j < id.len() ==> ident_char(#[trigger] id[j]),
        spec_lookup_ident(id) == Kind::Ident,
        n.len() > 0,
        all_digits(n),
    ensures
        tokens_from("let "@ + id + " = "@ + n + ";"@, 0) == seq![
            TokenV { kind: Kind::Let, text: "let"@ },
            TokenV { kind: Kind::Ident, text: id },
            TokenV { kind: Kind::Assign, text: "="@ },
            TokenV { kind: Kind::Int, text: n },
            TokenV { kind: Kind::SemiColon, text: ";"@ },
        ],
{
    reveal_strlit("let ");
    reveal_strlit(" = ");
    reveal_strlit(";");
    reveal_strlit("let");
    reveal_strlit("fn");
    reveal_strlit("=");
    let s = "let "@ + id + " = "@ + n + ";"@;
    let idl = id.len() as int;
    let nl = n.len() as int;
    assert(s.len() == 8 + idl + nl);
    assert(s[0] == 'l' && s[1] == 'e' && s[2] == 't' && s[3] == ' ');
    assert(forall|j: int| 0 <= j < idl ==> s[4 + j] == #[trigger] id[j]);
    assert(s[4 + idl] == ' ' && s[5 + idl] == '=' && s[6 + idl] == ' ');
    assert(forall|j: int| 0 <= j < nl ==> s[7 + idl + j] == #[trigger] n[j]);
    assert(s[7 + idl + nl] == ';');
    // the `let` keyword
    lemma_ident_run_extent(s, 1, 3);
    assert(token_end(s, 0) == 3);
    assert(s.subrange(0, 3) =~= "let"@);
    assert(token_val(s, 0) == TokenV { kind: Kind::Let, text: "let"@ });
    assert(tokens_from(s, 0) == seq![token_val(s, 0)] + tokens_from(s, 3));
    assert(tokens_from(s, 3) == tokens_from(s, 4));
    // the identifier
    assert(forall|j: int| 5 <= j < 4 + idl ==> ident_char(#[trigger] s[j]));
    lemma_ident_run_extent(s, 5, 4 + idl);
    assert(token_end(s, 4) == 4 + idl);
    assert(s.subrange(4, 4 + idl) =~= id);
    assert(token_val(s, 4) == TokenV { kind: Kind::Ident, text: id });
    assert(tokens_from(s, 4) == seq![token_val(s, 4)] + tokens_from(s, 4 + idl));
    assert(tokens_from(s, 4 + idl) == tokens_from(s, 5 + idl));
    // the assignment sign
    assert(token_end(s, 5 + idl) == 6 + idl);
    assert(s.subrange(5 + idl, 6 + idl) =~= "="@);
    assert(token_val(s, 5 + idl) == TokenV { kind: Kind::Assign, text: "="@ });
    assert(tokens_from(s, 5 + idl) == seq![token_val(s, 5 + idl)] + tokens_from(s, 6 + idl));
    assert(tokens_from(s, 6 + idl) == tokens_from(s, 7 + idl));
    // the integer literal
    assert(forall|j: int| 8 + idl <= j < 7 + idl + nl ==> digit_char(#[trigger] s[j]));
    lemma_digit_run_extent(s, 8 + idl, 7 + idl + nl);
    assert(token_end(s, 7 + idl) == 7 + idl + nl);
    assert(s.subrange(7 + idl, 7 + idl + nl) =~= n);
    assert(token_val(s, 7 + idl) == TokenV { kind: Kind::Int, text: n });
    assert(tokens_from(s, 7 + idl) == seq![token_val(s, 7 + idl)] + tokens_from(s, 7 + idl + nl));
    // the semicolon
    assert(token_end(s, 7 + idl + nl) == 8 + idl + nl);
    assert(s.subrange(7 + idl + nl, 8 + idl + nl) =~= ";"@);
    assert(token_val(s, 7 + idl + nl) == TokenV { kind: Kind::SemiColon, text: ";"@ });
    assert(tokens_from(s, 7 + idl + nl) == seq![token_val(s, 7 + idl + nl)] + tokens_from(
        s,
        8 + idl + nl,
    ));
    assert(tokens_from(s, 8 + idl + nl) =~= Seq::<TokenV>::empty());
    assert(tokens_from(s, 0) =~= seq![
        TokenV { kind: Kind::Let, text: "let"@ },
        TokenV { kind: Kind::Ident, text: id },
        TokenV { kind: Kind::Assign, text: "="@ },
        TokenV { kind: Kind::Int, text: n },
        TokenV { kind: Kind::SemiColon, text: ";"@ },
    ]);
}

/// Parsing the five tokens of a binding line yields exactly one `let`
/// statement whose name is the identifier and whose value is the integer
/// literal the digits denote, and no errors, for every sufficient fuel.
pub proof fn lemma_let_line_statement(id: Seq<char>, n: Seq<char>, f: nat)
    requires
        n.len() > 0,
        all_digits(n),
        digits_val(n) <= i64::MAX,
        f >= 43,
    ensures
        sp_program(
            seq![
                TokenV { kind: Kind::Let, text: "let"@ },
                TokenV { kind: Kind::Ident, text: id },
                TokenV { kind: Kind::Assign, text: "="@ },
                TokenV { kind: Kind::Int, text: n },
                TokenV { kind: Kind::SemiColon, text: ";"@ },
            ],
            f,
        ) == (
            seq![
                StmtV::Let {
                    name: IdentV { token: TokenV { kind: Kind::Ident, text: id }, text: id },
                    value: ExprV::IntegerLiteral(digits_val(n) as i64),
                },
            ],
            Seq::<Seq<char>>::empty(),
        ),
{
    let ts = seq![
        TokenV { kind: Kind::Let, text: "let"@ },
        TokenV { kind: Kind::Ident, text: id },
        TokenV { kind: Kind::Assign, text: "="@ },
        TokenV { kind: Kind::Int, text: n },
        TokenV { kind: Kind::SemiColon, text: ";"@ },
    ];
    let tse = adv(adv(adv(ts)));
    assert(tse =~= seq![
        TokenV { kind: Kind::Int, text: n },
        TokenV { kind: Kind::SemiColon, text: ";"@ },
    ]);
    let v = digits_val(n) as i64;
    assert(crate::digits::spec_parse_i64(n) == Some(v));
    assert(sp_expression_first(tse, (f - 3) as nat) == (
        Some(ExprV::IntegerLiteral(v)),
        tse,
        Seq::<Seq<char>>::empty(),
    ));
    assert(pk(tse).kind == Kind::SemiColon);
    assert(sp_expression_rest(ExprV::IntegerLiteral(v), tse, LOWEST, (f - 3) as nat) == (
        Some(ExprV::IntegerLiteral(v)),
        tse,
        Seq::<Seq<char>>::empty(),
    ));
    assert(sp_expression(tse, LOWEST, (f - 2) as nat) == (
        Some(ExprV::IntegerLiteral(v)),
        tse,
        Seq::<Seq<char>>::empty(),
    ));
    let name = IdentV { token: TokenV { kind: Kind::Ident, text: id }, text: id };
    let stmt = StmtV::Let { name, value: ExprV::IntegerLiteral(v) };
    assert(pk(tse) == ts[4]);
    assert(adv(tse) =~= seq![TokenV { kind: Kind::SemiColon, text: ";"@ }]);
    assert(sp_statement(ts, (f - 1) as nat) == (
        Some(stmt),
        seq![TokenV { kind: Kind::SemiColon, text: ";"@ }],
        Seq::<Seq<char>>::empty(),
    ));
    assert(adv(seq![TokenV { kind: Kind::SemiColon, text: ";"@ }]) =~= Seq::<TokenV>::empty());
    assert(cur(Seq::<TokenV>::empty()).kind == Kind::Eof);
    assert(sp_program(Seq::<TokenV>::empty(), (f - 1) as nat) == (
        Seq::<StmtV>::empty(),
        Seq::<Seq<char>>::empty(),
    ));
    assert(sp_program(ts, f).0 =~= seq![stmt]);
    assert(sp_program(ts, f).1 =~= Seq::<Seq<char>>::empty());
}

/// A name that lexes as one identifier token: non-empty, made of
/// identifier characters, and no keyword.
pub open spec fn wf_name(s: Seq<char>) -> bool {
    &&& s.len() > 0
    &&& (forall|j: int| 0 <= j < s.len() ==> ident_char(#[trigger] s[j]))
    &&& spec_lookup_ident(s) == Kind::Ident
}

/// The texts of the infix operators, with the category each lexes to.
pub open spec fn infix_op_kind(s: Seq<char>) -> Kind {
    if s == "+"@ {
        Kind::Plus
    } else if s == "-"@ {
        Kind::Minus
    } else if s == "*"@ {
        Kind::Asterix
    } else if s == "/"@ {
        Kind::Slash
    } else if s == "<"@ {
        Kind::Lt
    } else if s == ">"@ {
        Kind::Gt
    } else if s == "=="@ {
        Kind::Eq
    } else {
        Kind::Ne
    }
}

/// Whether `s` is the text of an infix operator.
pub open spec fn wf_infix_op(s: Seq<char>) -> bool {
    s == "+"@ || s == "-"@ || s == "*"@ || s == "/"@ || s == "<"@ || s == ">"@ || s == "=="@ || s
        == "!="@
}

/// The expressions whose fully parenthesized rendering re-parses to the
/// same tree: names, literals, prefix and infix nodes over such
/// expressions, and calls whose callee is not itself a call. An `if`
/// expression or a function literal renders its blocks without braces, and
/// a chained call its first argument list without a distinguishing mark,
/// so re-parsing would not reproduce them.
pub open spec fn wf_expr(e: ExprV) -> bool
    decreases e,
{
    match e {
        ExprV::Identifier(s) => wf_name(s),
        ExprV::IntegerLiteral(v) => v >= 0,
        ExprV::BooleanLiteral(_) => true,
        ExprV::Prefix { operator, right } => (operator == "!"@ || operator == "-"@) && wf_expr(
            *right,
        ),
        ExprV::Infix { left, operator, right } => wf_infix_op(operator) && wf_expr(*left)
            && wf_expr(*right),
        ExprV::If { .. } => false,
        ExprV::FunctionLiteral { .. } => false,
        ExprV::Call { function, arguments } => !(*function is Call) && wf_expr(*function) && (
        forall|i: int| 0 <= i < arguments.len() ==> wf_expr(#[trigger] arguments[i])),
    }
}

/// The token sequence of a well-formed expression's rendering.
pub open spec fn expr_tokens(e: ExprV) -> Seq<TokenV>
    decreases e, 0int,
{
    match e {
        ExprV::Identifier(s) => seq![TokenV { kind: Kind::Ident, text: s }],
        ExprV::IntegerLiteral(v) => seq![
            TokenV { kind: Kind::Int, text: dec_digits(v as nat) },
        ],
        ExprV::BooleanLiteral(b) => if b {
            seq![TokenV { kind: Kind::True, text: "true"@ }]
        } else {
            seq![TokenV { kind: Kind::False, text: "false"@ }]
        },
        ExprV::Prefix { operator, right } => seq![
            TokenV { kind: Kind::LParen, text: "("@ },
            TokenV {
                kind: if operator == "!"@ {
                    Kind::Bang
                } else {
                    Kind::Minus
                },
                text: operator,
            },
        ] + expr_tokens(*right) + seq![TokenV { kind: Kind::RParen, text: ")"@ }],
        ExprV::Infix { left, operator, right } => seq![
            TokenV { kind: Kind::LParen, text: "("@ },
        ] + expr_tokens(*left) + seq![TokenV { kind: infix_op_kind(operator), text: operator }]
            + expr_tokens(*right) + seq![TokenV { kind: Kind::RParen, text: ")"@ }],
        ExprV::If { .. } => Seq::empty(),
        ExprV::FunctionLiteral { .. } => Seq::empty(),
        ExprV::Call { function, arguments } => expr_tokens(*function) + seq![
            TokenV { kind: Kind::LParen, text: "("@ },
        ] + args_tokens(arguments, 0) + seq![TokenV { kind: Kind::RParen, text: ")"@ }],
    }
}

/// The token sequence of a call's arguments from index `k` on, with a
/// comma token between arguments.
pub open spec fn args_tokens(es: Seq<ExprV>, k: int) -> Seq<TokenV>
    decreases es, es.len() - k,
{
    if k < 0 || k >= es.len() {
        Seq::empty()
    } else if k == es.len() - 1 {
        expr_tokens(es[k])
    } else {
        expr_tokens(es[k]) + seq![TokenV { kind: Kind::Comma, text: ","@ }] + args_tokens(
            es,
            k + 1,
        )
    }
}

/// An identifier run is oblivious to the text before it.
proof fn lemma_ident_run_shift(a: Seq<char>, b: Seq<char>, j: int)
    requires
        0 <= j,
    ensures
        ident_run_len(a + b, a.len() + j) == ident_run_len(b, j),
    decreases b.len() - j,
{
    if j < b.len() && ident_char(b[j]) {
        assert((a + b)[a.len() + j] == b[j]);
        lemma_ident_run_shift(a, b, j + 1);
    }
}

/// A digit run is oblivious to the text before it.
proof fn lemma_digit_run_shift(a: Seq<char>, b: Seq<char>, j: int)
    requires
        0 <= j,
    ensures
        digit_run_len(a + b, a.len() + j) == digit_run_len(b, j),
    decreases b.len() - j,
{
    if j < b.len() && digit_char(b[j]) {
        assert((a + b)[a.len() + j] == b[j]);
        lemma_digit_run_shift(a, b, j + 1);
    }
}

/// Tokenizing is oblivious to the text before the position it starts at.
proof fn lemma_tokens_shift(a: Seq<char>, b: Seq<char>, j: int)
    requires
        0 <= j,
    ensures
        tokens_from(a + b, a.len() + j) == tokens_from(b, j),
    decreases b.len() - j,
{
    let s = a + b;
    if j >= b.len() {
        assert(tokens_from(s, a.len() + j) =~= Seq::<TokenV>::empty());
        assert(tokens_from(b, j) =~= Seq::<TokenV>::empty());
    } else {
        assert(s[a.len() + j] == b[j]);
        if crate::lexer::ws_char(b[j]) {
            lemma_tokens_shift(a, b, j + 1);
        } else {
            lemma_ident_run_shift(a, b, j + 1);
            lemma_digit_run_shift(a, b, j + 1);
            if a.len() + j + 1 < s.len() {
                assert(s[a.len() + j + 1] == b[j + 1]);
            }
            assert(token_end(s, a.len() + j) == a.len() + token_end(b, j));
            crate::lexer::lemma_token_end_bounds(b, j);
            assert(s.subrange(a.len() + j, a.len() + token_end(b, j)) =~= b.subrange(
                j,
                token_end(b, j),
            ));
            assert(token_val(s, a.len() + j) == token_val(b, j));
            lemma_tokens_shift(a, b, token_end(b, j));
            assert(tokens_from(s, a.len() + j) == tokens_from(b, j));
        }
    }
}

/// Text whose first character cannot extend a run or complete a two-sign
/// operator: tokenizing what comes before it is unaffected by it.
pub open spec fn safe_onward(t: Seq<char>) -> bool {
    t.len() == 0 || (!ident_char(t[0]) && !digit_char(t[0]) && t[0] != '=')
}

/// The category of each one-character token.
pub open spec fn single_kind(c: char) -> Kind {
    if c == '+' {
        Kind::Plus
    } else if c == '-' {
        Kind::Minus
    } else if c == '*' {
        Kind::Asterix
    } else if c == '/' {
        Kind::Slash
    } else if c == '<' {
        Kind::Lt
    } else if c == '>' {
        Kind::Gt
    } else if c == ';' {
        Kind::SemiColon
    } else if c == ',' {
        Kind::Comma
    } else if c == '(' {
        Kind::LParen
    } else if c == ')' {
        Kind::RParen
    } else if c == '{' {
        Kind::LBrace
    } else if c == '}' {
        Kind::RBrace
    } else if c == '=' {
        Kind::Assign
    } else {
        Kind::Bang
    }
}

/// A single-sign token followed by safe text: one token, then the rest.
pub proof fn lemma_single_token(c: char, t: Seq<char>)
    requires
        c == '+' || c == '-' || c == '*' || c == '/' || c == '<' || c == '>' || c == ';' || c
            == ',' || c == '(' || c == ')' || c == '{' || c == '}' || c == '=' || c == '!',
        (c == '=' || c == '!') ==> (t.len() == 0 || t[0] != '='),
    ensures
        tokens_from(seq![c] + t, 0) == seq![
            TokenV { kind: single_kind(c), text: seq![c] },
        ] + tokens_from(t, 0),
{
    let s = seq![c] + t;
    assert(s[0] == c);
    if t.len() > 0 {
        assert(s[1] == t[0]);
    }
    assert(!ident_char(c) && !digit_char(c) && !crate::lexer::ws_char(c));
    assert(token_end(s, 0) == 1);
    assert(s.subrange(0, 1) =~= seq![c]);
    assert(token_val(s, 0) == TokenV { kind: single_kind(c), text: seq![c] });
    lemma_tokens_shift(seq![c], t, 0);
    assert(tokens_from(s, 0) == seq![token_val(s, 0)] + tokens_from(s, 1));
}

/// A blank, then the rest: whitespace contributes no token.
pub proof fn lemma_blank_token(t: Seq<char>)
    ensures
        tokens_from(seq![' '] + t, 0) == tokens_from(t, 0),
{
    let s = seq![' '] + t;
    assert(s[0] == ' ');
    assert(tokens_from(s, 0) == tokens_from(s, 1));
    lemma_tokens_shift(seq![' '], t, 0);
}

/// An identifier-shaped run followed by safe text: one token classified by
/// the keyword table, then the rest.
pub proof fn lemma_name_token(nm: Seq<char>, t: Seq<char>)
    requires
        nm.len() > 0,
        forall|j: int| 0 <= j < nm.len() ==> ident_char(#[trigger] nm[j]),
        safe_onward(t),
    ensures
        tokens_from(nm + t, 0) == seq![
            TokenV { kind: spec_lookup_ident(nm), text: nm },
        ] + tokens_from(t, 0),
{
    let s = nm + t;
    let l = nm.len() as int;
    assert(forall|j: int| 0 <= j < l ==> s[j] == #[trigger] nm[j]);
    if t.len() > 0 {
        assert(s[l] == t[0]);
    }
    assert(forall|j: int| 1 <= j < l ==> ident_char(#[trigger] s[j]));
    lemma_ident_run_extent(s, 1, l);
    assert(token_end(s, 0) == l);
    assert(s.subrange(0, l) =~= nm);
    assert(token_val(s, 0) == TokenV { kind: spec_lookup_ident(nm), text: nm });
    lemma_tokens_shift(nm, t, 0);
    assert(tokens_from(s, 0) == seq![token_val(s, 0)] + tokens_from(s, l));
}

/// A digit run followed by safe text: one integer token, then the rest.
proof fn lemma_number_token(nm: Seq<char>, t: Seq<char>)
    requires
        nm.len() > 0,
        all_digits(nm),
        safe_onward(t),
    ensures
        tokens_from(nm + t, 0) == seq![TokenV { kind: Kind::Int, text: nm }] + tokens_from(t, 0),
{
    let s = nm + t;
    let l = nm.len() as int;
    assert(forall|j: int| 0 <= j < l ==> s[j] == #[trigger] nm[j]);
    if t.len() > 0 {
        assert(s[l] == t[0]);
    }
    assert(forall|j: int| 1 <= j < l ==> digit_char(#[trigger] s[j]));
    lemma_digit_run_extent(s, 1, l);
    assert(token_end(s, 0) == l);
    assert(s.subrange(0, l) =~= nm);
    assert(digit_char(s[0]) && !ident_char(s[0]) && !crate::lexer::ws_char(s[0]));
    assert(s[0] != '=' && s[0] != '!');
    assert(token_val(s, 0) == TokenV { kind: Kind::Int, text: nm });
    lemma_tokens_shift(nm, t, 0);
    assert(tokens_from(s, 0) == seq![token_val(s, 0)] + tokens_from(s, l));
}

/// The two-sign equality operators followed by safe text: one token, then
/// the rest.
proof fn lemma_double_token(c: char, t: Seq<char>)
    requires
        c == '=' || c == '!',
    ensures
        tokens_from(seq![c, '='] + t, 0) == seq![
            TokenV {
                kind: if c == '=' {
                    Kind::Eq
                } else {
                    Kind::Ne
                },
                text: seq![c, '='],
            },
        ] + tokens_from(t, 0),
{
    let s = seq![c, '='] + t;
    assert(s[0] == c && s[1] == '=');
    assert(token_end(s, 0) == 2);
    assert(s.subrange(0, 2) =~= seq![c, '=']);
    lemma_tokens_shift(seq![c, '='], t, 0);
    assert(tokens_from(s, 0) == seq![token_val(s, 0)] + tokens_from(s, 2));
}

/// An infix operator's text followed by a blank: its one token, then the
/// rest.
proof fn lemma_infix_op_token(op: Seq<char>, t: Seq<char>)
    requires
        wf_infix_op(op),
        t.len() > 0 && t[0] == ' ',
    ensures
        tokens_from(op + t, 0) == seq![
            TokenV { kind: infix_op_kind(op), text: op },
        ] + tokens_from(t, 0),
{
    reveal_strlit("+");
    reveal_strlit("-");
    reveal_strlit("*");
    reveal_strlit("/");
    reveal_strlit("<");
    reveal_strlit(">");
    reveal_strlit("==");
    reveal_strlit("!=");
    if op == "=="@ {
        assert(op =~= seq!['=', '=']);
        lemma_double_token('=', t);
        assert(seq!['=', '='] + t =~= op + t);
    } else if op == "!="@ {
        assert(op =~= seq!['!', '=']);
        lemma_double_token('!', t);
        assert(seq!['!', '='] + t =~= op + t);
    } else {
        let c = op[0];
        assert(op =~= seq![c]);
        lemma_single_token(c, t);
        assert(seq![c] + t =~= op + t);
        assert(single_kind(c) == infix_op_kind(op));
        assert(seq![c] =~= op);
    }
}

/// The rendering of a well-formed expression, followed by text that starts
/// no run and completes no sign: it tokenizes to the expression's tokens
/// and then the tokens of what follows. The rendering is never empty and
/// opens with a letter, a digit, or a parenthesis.
#[verifier::rlimit(80)]
pub proof fn lemma_expr_text_tokens(e: ExprV, t: Seq<char>)
    requires
        wf_expr(e),
        safe_onward(t),
    ensures
        tokens_from(expr_text(e) + t, 0) == expr_tokens(e) + tokens_from(t, 0),
        expr_text(e).len() > 0,
        ident_char(expr_text(e)[0]) || digit_char(expr_text(e)[0]) || expr_text(e)[0] == '(',
    decreases e, 1int,
{
    reveal_strlit("(");
    reveal_strlit(")");
    reveal_strlit("!");
    reveal_strlit("-");
    reveal_strlit(" ");
    reveal_strlit("true");
    reveal_strlit("false");
    reveal_strlit("fn");
    reveal_strlit("let");
    reveal_strlit("if");
    reveal_strlit("else");
    reveal_strlit("return");
    match e {
        ExprV::Identifier(s) => {
            lemma_name_token(s, t);
        },
        ExprV::IntegerLiteral(v) => {
            lemma_dec_digits_value(v as nat);
            lemma_number_token(dec_digits(v as nat), t);
        },
        ExprV::BooleanLiteral(b) => {
            if b {
                assert("fn"@.len() == 2 && "let"@.len() == 3 && "true"@.len() == 4);
                assert(forall|j: int|
                    0 <= j < "true"@.len() ==> ident_char(#[trigger] "true"@[j]));
                assert(spec_lookup_ident("true"@) == Kind::True);
                lemma_name_token("true"@, t);
            } else {
                assert("fn"@.len() == 2 && "let"@.len() == 3 && "true"@.len() == 4
                    && "false"@.len() == 5);
                assert(forall|j: int|
                    0 <= j < "false"@.len() ==> ident_char(#[trigger] "false"@[j]));
                assert(spec_lookup_ident("false"@) == Kind::False);
                lemma_name_token("false"@, t);
            }
        },
        ExprV::Prefix { operator, right } => {
            let tr = expr_text(*right);
            let tail1 = ")"@ + t;
            assert(tail1[0] == ')');
            lemma_expr_text_tokens(*right, tail1);
            assert(")"@ =~= seq![')']);
            lemma_single_token(')', t);
            assert(seq![')'] + t =~= tail1);
            assert(tokens_from(tail1, 0) == seq![TokenV { kind: Kind::RParen, text: ")"@ }]
                + tokens_from(t, 0)) by {
                assert(seq![')'] =~= ")"@);
            }
            let tail2 = tr + tail1;
            assert(tail2[0] == tr[0] && tail2[0] != '=');
            let c = operator[0];
            assert(operator =~= seq![c]);
            lemma_single_token(c, tail2);
            assert(seq![c] + tail2 =~= operator + tail2);
            assert(single_kind(c) == (if operator == "!"@ {
                Kind::Bang
            } else {
                Kind::Minus
            }));
            let tail3 = operator + tail2;
            assert(tail3[0] == c && c != '=');
            lemma_single_token('(', tail3);
            assert(seq!['('] + tail3 =~= expr_text(e) + t);
            assert(seq!['('] =~= "("@);
            assert(tokens_from(expr_text(e) + t, 0) =~= expr_tokens(e) + tokens_from(t, 0));
            assert((expr_text(e) + t)[0] == '(' && expr_text(e)[0] == '(');
        },
        ExprV::Infix { left, operator, right } => {
            let tl = expr_text(*left);
            let tr = expr_text(*right);
            let tail1 = ")"@ + t;
            assert(tail1[0] == ')');
            lemma_expr_text_tokens(*right, tail1);
            assert(")"@ =~= seq![')']);
            lemma_single_token(')', t);
            assert(seq![')'] + t =~= tail1);
            assert(tokens_from(tail1, 0) == seq![TokenV { kind: Kind::RParen, text: ")"@ }]
                + tokens_from(t, 0)) by {
                assert(seq![')'] =~= ")"@);
            }
            let tail2 = tr + tail1;
            assert(" "@ =~= seq![' ']);
            lemma_blank_token(tail2);
            assert(seq![' '] + tail2 =~= " "@ + tail2);
            let tail3 = " "@ + tail2;
            assert(tail3.len() > 0 && tail3[0] == ' ');
            lemma_infix_op_token(operator, tail3);
            let tail4 = operator + tail3;
            lemma_blank_token(tail4);
            assert(seq![' '] + tail4 =~= " "@ + tail4);
            let tail5 = " "@ + tail4;
            assert(tail5[0] == ' ');
            lemma_expr_text_tokens(*left, tail5);
            let tail6 = tl + tail5;
            assert(tail6[0] == tl[0] && tail6[0] != '=');
            lemma_single_token('(', tail6);
            assert(seq!['('] + tail6 =~= expr_text(e) + t);
            assert(seq!['('] =~= "("@);
            assert(tokens_from(expr_text(e) + t, 0) =~= expr_tokens(e) + tokens_from(t, 0));
            assert((expr_text(e) + t)[0] == '(' && expr_text(e)[0] == '(');
        },
        ExprV::If { .. } => {},
        ExprV::FunctionLiteral { .. } => {},
        ExprV::Call { function, arguments } => {
            let tf = expr_text(*function);
            let ta = crate::ast::args_text_from(arguments, 0);
            let tail1 = ")"@ + t;
            assert(tail1[0] == ')');
            assert(")"@ =~= seq![')']);
            lemma_single_token(')', t);
            assert(seq![')'] + t =~= tail1);
            assert(tokens_from(tail1, 0) == seq![TokenV { kind: Kind::RParen, text: ")"@ }]
                + tokens_from(t, 0)) by {
                assert(seq![')'] =~= ")"@);
            }
            lemma_args_text_tokens(arguments, 0, tail1);
            let tail2 = ta + tail1;
            lemma_single_token('(', tail2);
            assert(seq!['('] + tail2 =~= "("@ + tail2);
            assert(seq!['('] =~= "("@);
            let tail3 = "("@ + tail2;
            assert(tail3[0] == '(');
            lemma_expr_text_tokens(*function, tail3);
            assert(tf + tail3 =~= expr_text(e) + t);
            assert(tokens_from(expr_text(e) + t, 0) =~= expr_tokens(e) + tokens_from(t, 0));
            assert(expr_text(e)[0] == tf[0]);
        },
    }
}

/// The rendering of a well-formed argument list from index `k` on,
/// followed by text that starts no run: its tokens with a comma between
/// arguments, then the tokens of what follows.
proof fn lemma_args_text_tokens(es: Seq<ExprV>, k: int, t: Seq<char>)
    requires
        forall|i: int| 0 <= i < es.len() ==> wf_expr(#[trigger] es[i]),
        safe_onward(t),
    ensures
        tokens_from(crate::ast::args_text_from(es, k) + t, 0) == args_tokens(es, k) + tokens_from(
            t,
            0,
        ),
    decreases es, es.len() - k,
{
    reveal_strlit(",");
    reveal_strlit(", ");
    if k < 0 || k >= es.len() {
        assert(crate::ast::args_text_from(es, k) + t =~= t);
        assert(args_tokens(es, k) + tokens_from(t, 0) =~= tokens_from(t, 0));
    } else if k == es.len() - 1 {
        lemma_expr_text_tokens(es[k], t);
        assert(args_tokens(es, k) + tokens_from(t, 0) =~= expr_tokens(es[k]) + tokens_from(t, 0));
    } else {
        lemma_args_text_tokens(es, k + 1, t);
        let ta = crate::ast::args_text_from(es, k + 1);
        let tail1 = ta + t;
        lemma_blank_token(tail1);
        let tail2 = seq![' '] + tail1;
        assert(tail2[0] == ' ');
        lemma_single_token(',', tail2);
        assert(seq![','] =~= ","@);
        let tail3 = seq![','] + tail2;
        assert(tail3[0] == ',');
        lemma_expr_text_tokens(es[k], tail3);
        assert(expr_text(es[k]) + tail3 =~= crate::ast::args_text_from(es, k) + t);
        assert(tokens_from(crate::ast::args_text_from(es, k) + t, 0) =~= args_tokens(es, k)
            + tokens_from(t, 0));
    }
}

/// The precedence loop goes no further: the token after a construct is a
/// semicolon or binds no tighter than the minimum in force.
pub open spec fn loop_stops(rest: Seq<TokenV>, min: i32) -> bool {
    rest.len() == 0 || rest[0].kind == Kind::SemiColon || prec_of(rest[0].kind) <= min
}

/// The token sequence of a call's arguments after the first: each further
/// argument's tokens behind a comma.
pub open spec fn args_tokens_rest(es: Seq<ExprV>, k: int) -> Seq<TokenV>
    decreases es, es.len() - k,
{
    if k < 0 || k >= es.len() {
        Seq::empty()
    } else {
        seq![TokenV { kind: Kind::Comma, text: ","@ }] + expr_tokens(es[k]) + args_tokens_rest(
            es,
            k + 1,
        )
    }
}

/// The whole argument token sequence splits as the first argument's tokens
/// and the comma-led rest.
proof fn lemma_args_tokens_split(es: Seq<ExprV>, k: int)
    requires
        0 <= k < es.len(),
    ensures
        args_tokens(es, k) == expr_tokens(es[k]) + args_tokens_rest(es, k + 1),
    decreases es.len() - k,
{
    if k == es.len() - 1 {
        assert(args_tokens_rest(es, k + 1) =~= Seq::<TokenV>::empty());
        assert(expr_tokens(es[k]) + Seq::<TokenV>::empty() =~= expr_tokens(es[k]));
    } else {
        lemma_args_tokens_split(es, k + 1);
        assert(args_tokens(es, k) =~= expr_tokens(es[k]) + args_tokens_rest(es, k + 1));
    }
}

/// A well-formed expression's token sequence is non-empty and opens with a
/// name, a literal, or an opening parenthesis.
pub proof fn lemma_expr_tokens_shape(e: ExprV)
    requires
        wf_expr(e),
    ensures
        expr_tokens(e).len() > 0,
        expr_tokens(e)[0].kind == Kind::Ident || expr_tokens(e)[0].kind == Kind::Int
            || expr_tokens(e)[0].kind == Kind::True || expr_tokens(e)[0].kind == Kind::False
            || expr_tokens(e)[0].kind == Kind::LParen,
    decreases e, 0int, 0int,
{
    match e {
        ExprV::Call { function, arguments } => {
            lemma_expr_tokens_shape(*function);
            assert(expr_tokens(e)[0] == expr_tokens(*function)[0]);
        },
        _ => {},
    }
}

/// Parsing the prefix step of a rendered non-call expression consumes its
/// tokens exactly and yields the expression back.
#[verifier::rlimit(100)]
proof fn lemma_first_parse(e: ExprV, rest: Seq<TokenV>)
    requires
        wf_expr(e),
        !(e is Call),
    ensures
        expr_tokens(e).len() > 0,
        forall|f: nat|
            f >= 6 * (expr_tokens(e) + rest).len() + 9 ==> sp_expression_first(
                expr_tokens(e) + rest,
                f,
            ) == (Some(e), seq![expr_tokens(e).last()] + rest, Seq::<Seq<char>>::empty()),
    decreases e, 2int, 2int,
{
    let ts = expr_tokens(e) + rest;
    match e {
        ExprV::Identifier(s) => {
            assert(cur(ts) == expr_tokens(e)[0]);
            assert forall|f: nat| f >= 6 * ts.len() + 9 implies sp_expression_first(ts, f) == (
                Some(e),
                seq![expr_tokens(e).last()] + rest,
                Seq::<Seq<char>>::empty(),
            ) by {
                assert(seq![expr_tokens(e).last()] + rest =~= ts);
            }
        },
        ExprV::IntegerLiteral(v) => {
            lemma_dec_digits_value(v as nat);
            assert(cur(ts) == expr_tokens(e)[0]);
            assert(crate::digits::spec_parse_i64(dec_digits(v as nat)) == Some(v));
            assert forall|f: nat| f >= 6 * ts.len() + 9 implies sp_expression_first(ts, f) == (
                Some(e),
                seq![expr_tokens(e).last()] + rest,
                Seq::<Seq<char>>::empty(),
            ) by {
                assert(seq![expr_tokens(e).last()] + rest =~= ts);
            }
        },
        ExprV::BooleanLiteral(b) => {
            assert(cur(ts) == expr_tokens(e)[0]);
            assert forall|f: nat| f >= 6 * ts.len() + 9 implies sp_expression_first(ts, f) == (
                Some(e),
                seq![expr_tokens(e).last()] + rest,
                Seq::<Seq<char>>::empty(),
            ) by {
                assert(seq![expr_tokens(e).last()] + rest =~= ts);
            }
        },
        ExprV::Prefix { .. } => {
            lemma_prefix_first_parse(e, rest);
        },
        ExprV::Infix { .. } => {
            lemma_infix_first_parse(e, rest);
        },
        _ => {},
    }
}

/// The prefix step on a rendered prefix node: the group opens, the
/// operator applies to its operand, and the group closes.
#[verifier::rlimit(100)]
proof fn lemma_prefix_first_parse(e: ExprV, rest: Seq<TokenV>)
    requires
        wf_expr(e),
        e is Prefix,
    ensures
        forall|f: nat|
            f >= 6 * (expr_tokens(e) + rest).len() + 9 ==> sp_expression_first(
                expr_tokens(e) + rest,
                f,
            ) == (Some(e), seq![expr_tokens(e).last()] + rest, Seq::<Seq<char>>::empty()),
    decreases e, 2int, 1int,
{
    let ts = expr_tokens(e) + rest;
    match e {
        ExprV::Prefix { operator, right } => {
                let rtoks = expr_tokens(*right);
                let op_tok = TokenV {
                    kind: if operator == "!"@ {
                        Kind::Bang
                    } else {
                        Kind::Minus
                    },
                    text: operator,
                };
                let rp = TokenV { kind: Kind::RParen, text: ")"@ };
                let inner = seq![op_tok] + rtoks + seq![rp] + rest;
                assert(cur(ts).kind == Kind::LParen);
                assert(adv(ts) =~= inner);
                assert(cur(inner) == op_tok);
                assert(adv(inner) =~= rtoks + (seq![rp] + rest));
                lemma_expr_parse(*right, PREFIX, seq![rp] + rest);
                assert forall|f: nat| f >= 6 * ts.len() + 9 implies sp_expression_first(ts, f) == (
                    Some(e),
                    seq![expr_tokens(e).last()] + rest,
                    Seq::<Seq<char>>::empty(),
                ) by {
                    let f1 = (f - 1) as nat;  // fuel of sp_grouped
                    let f2 = (f1 - 1) as nat;  // fuel of the inner expression parse
                    let f3 = (f2 - 1) as nat;  // fuel of its prefix step and loop
                    let f4 = (f3 - 1) as nat;  // fuel of sp_prefix
                    let f5 = (f4 - 1) as nat;  // fuel of the operand parse
                    assert(sp_expression(rtoks + (seq![rp] + rest), PREFIX, f5) == (
                        Some(*right),
                        seq![rtoks.last()] + (seq![rp] + rest),
                        Seq::<Seq<char>>::empty(),
                    ));
                    let after = seq![rtoks.last()] + (seq![rp] + rest);
                    assert(sp_prefix(inner, f4) == (Some(e), after, Seq::<Seq<char>>::empty()));
                    assert(sp_expression_first(inner, f3) == (
                        Some(e),
                        after,
                        Seq::<Seq<char>>::empty(),
                    ));
                    assert(pk(after) == rp);
                    assert(sp_expression_rest(e, after, LOWEST, f3) == (
                        Some(e),
                        after,
                        Seq::<Seq<char>>::empty(),
                    ));
                    assert(sp_expression(inner, LOWEST, f2) == (
                        Some(e),
                        after,
                        Seq::<Seq<char>>::empty(),
                    )) by {
                        assert(Seq::<Seq<char>>::empty() + Seq::<Seq<char>>::empty()
                            =~= Seq::<Seq<char>>::empty());
                    }
                    assert(sp_grouped(ts, f1) == (Some(e), adv(after), Seq::<Seq<char>>::empty()));
                    assert(adv(after) =~= seq![rp] + rest);
                    assert(seq![expr_tokens(e).last()] + rest =~= seq![rp] + rest);
                }
        },
        _ => {},
    }
}

/// The prefix step on a rendered infix node: the group opens, the operand
/// chain inside comes back as the one node, and the group closes.
#[verifier::rlimit(100)]
proof fn lemma_infix_first_parse(e: ExprV, rest: Seq<TokenV>)
    requires
        wf_expr(e),
        e is Infix,
    ensures
        forall|f: nat|
            f >= 6 * (expr_tokens(e) + rest).len() + 9 ==> sp_expression_first(
                expr_tokens(e) + rest,
                f,
            ) == (Some(e), seq![expr_tokens(e).last()] + rest, Seq::<Seq<char>>::empty()),
    decreases e, 2int, 1int,
{
    let ts = expr_tokens(e) + rest;
    match e {
        ExprV::Infix { left, operator, right } => {
                let rp = TokenV { kind: Kind::RParen, text: ")"@ };
                lemma_infix_node_parse(e, seq![rp] + rest);
                let ltoks = expr_tokens(*left);
                let rtoks = expr_tokens(*right);
                let op_tok = TokenV { kind: infix_op_kind(operator), text: operator };
                let inner = infix_inner_tokens(e) + (seq![rp] + rest);
                assert(inner =~= ltoks + seq![op_tok] + rtoks + (seq![rp] + rest));
                assert(cur(ts).kind == Kind::LParen);
                assert(adv(ts) =~= inner);
                assert forall|f: nat| f >= 6 * ts.len() + 9 implies sp_expression_first(ts, f) == (
                    Some(e),
                    seq![expr_tokens(e).last()] + rest,
                    Seq::<Seq<char>>::empty(),
                ) by {
                    let f1 = (f - 1) as nat;  // fuel of sp_grouped
                    let f2 = (f1 - 1) as nat;  // fuel of the inner expression parse
                    assert(sp_expression(inner, LOWEST, f2) == (
                        Some(e),
                        seq![rtoks.last()] + (seq![rp] + rest),
                        Seq::<Seq<char>>::empty(),
                    ));
                    let after = seq![rtoks.last()] + (seq![rp] + rest);
                    assert(pk(after) == rp);
                    assert(sp_grouped(ts, f1) == (Some(e), adv(after), Seq::<Seq<char>>::empty()));
                    assert(adv(after) =~= seq![rp] + rest);
                    assert(seq![expr_tokens(e).last()] + rest =~= seq![rp] + rest);
                }
        },
        _ => {},
    }
}

/// The token sequence between an infix node's parentheses: the left
/// operand's tokens, the operator's token, the right operand's tokens.
pub open spec fn infix_inner_tokens(e: ExprV) -> Seq<TokenV> {
    match e {
        ExprV::Infix { left, operator, right } => expr_tokens(*left) + seq![
            (TokenV { kind: infix_op_kind(operator), text: operator }),
        ] + expr_tokens(*right),
        _ => Seq::empty(),
    }
}

/// The right operand's token sequence of an infix node.
pub open spec fn infix_right_tokens(e: ExprV) -> Seq<TokenV> {
    match e {
        ExprV::Infix { right, .. } => expr_tokens(*right),
        _ => Seq::empty(),
    }
}

/// The precedence loop after an expression has been built, the cursor on
/// its last token and an infix operator in the lookahead: one operator
/// step, the right operand at the operator's binding power, then the loop
/// stops.
#[verifier::rlimit(100)]
proof fn lemma_infix_tail(
    leftv: ExprV,
    operator: Seq<char>,
    right: ExprV,
    x: TokenV,
    rest: Seq<TokenV>,
)
    requires
        wf_infix_op(operator),
        wf_expr(right),
        loop_stops(rest, LOWEST),
    ensures
        forall|f: nat|
            f >= 6 * (seq![x] + (seq![(TokenV { kind: infix_op_kind(operator), text: operator })]
                + (expr_tokens(right) + rest))).len() + 9 ==> sp_expression_rest(
                leftv,
                seq![x] + (seq![(TokenV { kind: infix_op_kind(operator), text: operator })] + (
                expr_tokens(right) + rest)),
                LOWEST,
                f,
            ) == (
                Some(
                    ExprV::Infix {
                        left: Box::new(leftv),
                        operator: operator,
                        right: Box::new(right),
                    },
                ),
                seq![expr_tokens(right).last()] + rest,
                Seq::<Seq<char>>::empty(),
            ),
    decreases right, 4int, 0int,
{
    let op_tok = TokenV { kind: infix_op_kind(operator), text: operator };
    let rtoks = expr_tokens(right);
    let state1 = seq![x] + (seq![op_tok] + (rtoks + rest));
    let node = ExprV::Infix { left: Box::new(leftv), operator: operator, right: Box::new(right) };
    let p = prec_of(op_tok.kind);
    assert(is_infix_op(op_tok.kind) && 1 <= p <= 4);
    assert(loop_stops(rest, p));
    lemma_expr_parse(right, p, rest);
    assert forall|f: nat| f >= 6 * state1.len() + 9 implies sp_expression_rest(
        leftv,
        state1,
        LOWEST,
        f,
    ) == (Some(node), seq![rtoks.last()] + rest, Seq::<Seq<char>>::empty()) by {
        assert(pk(state1) == op_tok);
        let f1 = (f - 1) as nat;  // fuel of sp_infix and of the loop's next round
        let f2 = (f1 - 1) as nat;  // fuel of the right operand's parse
        assert(adv(state1) =~= seq![op_tok] + (rtoks + rest));
        assert(cur(seq![op_tok] + (rtoks + rest)) == op_tok);
        assert(adv(seq![op_tok] + (rtoks + rest)) =~= rtoks + rest);
        assert(sp_expression(rtoks + rest, p, f2) == (
            Some(right),
            seq![rtoks.last()] + rest,
            Seq::<Seq<char>>::empty(),
        ));
        assert(sp_infix(leftv, seq![op_tok] + (rtoks + rest), f1) == (
            Some(node),
            seq![rtoks.last()] + rest,
            Seq::<Seq<char>>::empty(),
        ));
        let state2 = seq![rtoks.last()] + rest;
        assert(pk(state2) == (if rest.len() > 0 {
            rest[0]
        } else {
            eof_tok()
        }));
        assert(sp_expression_rest(node, state2, LOWEST, f1) == (
            Some(node),
            state2,
            Seq::<Seq<char>>::empty(),
        ));
        assert(sp_expression_rest(leftv, state1, LOWEST, f) == (
            Some(node),
            state2,
            Seq::<Seq<char>>::empty(),
        )) by {
            assert(Seq::<Seq<char>>::empty() + Seq::<Seq<char>>::empty()
                =~= Seq::<Seq<char>>::empty());
        }
    }
}

/// Parsing the rendered tokens of an infix node from inside its
/// parentheses at lowest binding power: the left operand, the operator and
/// the right operand come back as the one node.
#[verifier::rlimit(100)]
proof fn lemma_infix_node_parse(node: ExprV, rest: Seq<TokenV>)
    requires
        node is Infix,
        wf_expr(node),
        loop_stops(rest, LOWEST),
    ensures
        forall|f: nat|
            f >= 6 * (infix_inner_tokens(node) + rest).len() + 10 ==> sp_expression(
                infix_inner_tokens(node) + rest,
                LOWEST,
                f,
            ) == (
                Some(node),
                seq![infix_right_tokens(node).last()] + rest,
                Seq::<Seq<char>>::empty(),
            ),
    decreases node, 1int, 0int,
{
    match node {
        ExprV::Infix { left, operator, right } => {
            assert(wf_infix_op(operator) && wf_expr(*left) && wf_expr(*right));
            let ltoks = expr_tokens(*left);
            let rtoks = expr_tokens(*right);
            let op_tok = TokenV { kind: infix_op_kind(operator), text: operator };
            let ts = infix_inner_tokens(node) + rest;
            let tail0 = seq![op_tok] + (rtoks + rest);
            if !(*left is Call) {
                lemma_infix_tail(*left, operator, *right, ltoks.last(), rest);
                lemma_first_parse(*left, tail0);
                assert(ltoks + tail0 =~= ts);
                assert forall|f: nat| f >= 6 * ts.len() + 10 implies sp_expression(
                    ts,
                    LOWEST,
                    f,
                ) == (Some(node), seq![rtoks.last()] + rest, Seq::<Seq<char>>::empty()) by {
                    let f1 = (f - 1) as nat;
                    assert(sp_expression_first(ltoks + tail0, f1) == (
                        Some(*left),
                        seq![ltoks.last()] + tail0,
                        Seq::<Seq<char>>::empty(),
                    ));
                    assert(sp_expression_first(ts, f1) == (
                        Some(*left),
                        seq![ltoks.last()] + tail0,
                        Seq::<Seq<char>>::empty(),
                    ));
                    assert(sp_expression_rest(*left, seq![ltoks.last()] + tail0, LOWEST, f1)
                        == (
                        Some(node),
                        seq![rtoks.last()] + rest,
                        Seq::<Seq<char>>::empty(),
                    ));
                    assert(sp_expression(ts, LOWEST, f) == (
                        Some(node),
                        seq![rtoks.last()] + rest,
                        Seq::<Seq<char>>::empty(),
                    )) by {
                        assert(Seq::<Seq<char>>::empty() + Seq::<Seq<char>>::empty()
                            =~= Seq::<Seq<char>>::empty());
                    }
                }
            } else {
                match *left {
                    ExprV::Call { function, arguments } => {
                        assert(wf_expr(*function) && !(*function is Call));
                        assert(forall|i: int|
                            0 <= i < arguments.len() ==> wf_expr(#[trigger] arguments[i]));
                        let gtoks = expr_tokens(*function);
                        let lp = TokenV { kind: Kind::LParen, text: "("@ };
                        let rp = TokenV { kind: Kind::RParen, text: ")"@ };
                        let atoks = args_tokens(arguments, 0);
                        let calltail = seq![lp] + atoks + (seq![rp] + tail0);
                        lemma_infix_tail(*left, operator, *right, rp, rest);
                        lemma_first_parse(*function, calltail);
                        lemma_call_args_parse(arguments, tail0);
                        assert(calltail =~= seq![lp] + args_tokens(arguments, 0) + seq![rp]
                            + tail0);
                        assert(gtoks + calltail =~= ts);
                        assert(ltoks =~= gtoks + seq![lp] + atoks + seq![rp]);
                        assert forall|f: nat| f >= 6 * ts.len() + 10 implies sp_expression(
                            ts,
                            LOWEST,
                            f,
                        ) == (Some(node), seq![rtoks.last()] + rest, Seq::<Seq<char>>::empty())
                            by {
                            let f1 = (f - 1) as nat;
                            assert(sp_expression_first(gtoks + calltail, f1) == (
                                Some(*function),
                                seq![gtoks.last()] + calltail,
                                Seq::<Seq<char>>::empty(),
                            ));
                            assert(sp_expression_first(ts, f1) == (
                                Some(*function),
                                seq![gtoks.last()] + calltail,
                                Seq::<Seq<char>>::empty(),
                            ));
                            let state1 = seq![gtoks.last()] + calltail;
                            assert(pk(state1) == lp);
                            assert(prec_of(lp.kind) == CALL);
                            let f2 = (f1 - 1) as nat;
                            let f3 = (f2 - 1) as nat;
                            assert(adv(state1) =~= calltail);
                            assert(sp_call_args(calltail, f3) == (
                                Some(arguments),
                                seq![rp] + tail0,
                                Seq::<Seq<char>>::empty(),
                            ));
                            assert(sp_call(*function, calltail, f2) == (
                                Some(*left),
                                seq![rp] + tail0,
                                Seq::<Seq<char>>::empty(),
                            ));
                            let state2 = seq![rp] + tail0;
                            assert(sp_expression_rest(*left, state2, LOWEST, f2) == (
                                Some(node),
                                seq![rtoks.last()] + rest,
                                Seq::<Seq<char>>::empty(),
                            ));
                            assert(sp_expression_rest(*function, state1, LOWEST, f1) == (
                                Some(node),
                                seq![rtoks.last()] + rest,
                                Seq::<Seq<char>>::empty(),
                            )) by {
                                assert(Seq::<Seq<char>>::empty() + Seq::<Seq<char>>::empty()
                                    =~= Seq::<Seq<char>>::empty());
                            }
                            assert(sp_expression(ts, LOWEST, f) == (
                                Some(node),
                                seq![rtoks.last()] + rest,
                                Seq::<Seq<char>>::empty(),
                            )) by {
                                assert(Seq::<Seq<char>>::empty() + Seq::<Seq<char>>::empty()
                                    =~= Seq::<Seq<char>>::empty());
                            }
                        }
                    },
                    _ => {},
                }
            }
        },
        _ => {},
    }
}

/// Parsing the rendered tokens of a well-formed expression at any binding
/// power below a call's, with what follows binding no tighter: the
/// expression comes back whole, the cursor resting on its last token.
#[verifier::rlimit(100)]
pub proof fn lemma_expr_parse(e: ExprV, min: i32, rest: Seq<TokenV>)
    requires
        wf_expr(e),
        0 <= min < CALL,
        loop_stops(rest, min),
    ensures
        expr_tokens(e).len() > 0,
        forall|f: nat|
            f >= 6 * (expr_tokens(e) + rest).len() + 10 ==> sp_expression(
                expr_tokens(e) + rest,
                min,
                f,
            ) == (Some(e), seq![expr_tokens(e).last()] + rest, Seq::<Seq<char>>::empty()),
    decreases e, 3int, 0int,
{
    let ts = expr_tokens(e) + rest;
    if !(e is Call) {
        lemma_first_parse(e, rest);
        assert forall|f: nat| f >= 6 * ts.len() + 10 implies sp_expression(ts, min, f) == (
            Some(e),
            seq![expr_tokens(e).last()] + rest,
            Seq::<Seq<char>>::empty(),
        ) by {
            let f1 = (f - 1) as nat;
            assert(sp_expression_first(ts, f1) == (
                Some(e),
                seq![expr_tokens(e).last()] + rest,
                Seq::<Seq<char>>::empty(),
            ));
            let state = seq![expr_tokens(e).last()] + rest;
            assert(pk(state) == (if rest.len() > 0 {
                rest[0]
            } else {
                eof_tok()
            }));
            assert(sp_expression_rest(e, state, min, f1) == (
                Some(e),
                state,
                Seq::<Seq<char>>::empty(),
            ));
            assert(sp_expression(ts, min, f) == (Some(e), state, Seq::<Seq<char>>::empty()))
                by {
                assert(Seq::<Seq<char>>::empty() + Seq::<Seq<char>>::empty()
                    =~= Seq::<Seq<char>>::empty());
            }
        }
    } else {
        match e {
            ExprV::Call { function, arguments } => {
                assert(wf_expr(*function) && !(*function is Call));
                assert(forall|i: int|
                    0 <= i < arguments.len() ==> wf_expr(#[trigger] arguments[i]));
                let gtoks = expr_tokens(*function);
                let lp = TokenV { kind: Kind::LParen, text: "("@ };
                let rp = TokenV { kind: Kind::RParen, text: ")"@ };
                let atoks = args_tokens(arguments, 0);
                let calltail = seq![lp] + atoks + (seq![rp] + rest);
                lemma_first_parse(*function, calltail);
                assert(gtoks + calltail =~= ts);
                lemma_call_args_parse(arguments, rest);
                assert(calltail =~= seq![lp] + args_tokens(arguments, 0) + seq![rp] + rest);
                assert(expr_tokens(e) =~= gtoks + seq![lp] + atoks + seq![rp]);
                assert(expr_tokens(e).last() == rp);
                assert forall|f: nat| f >= 6 * ts.len() + 10 implies sp_expression(ts, min, f)
                    == (Some(e), seq![expr_tokens(e).last()] + rest, Seq::<Seq<char>>::empty())
                    by {
                    let f1 = (f - 1) as nat;
                    assert(sp_expression_first(ts, f1) == (
                        Some(*function),
                        seq![gtoks.last()] + calltail,
                        Seq::<Seq<char>>::empty(),
                    ));
                    let state1 = seq![gtoks.last()] + calltail;
                    assert(pk(state1) == lp);
                    assert(prec_of(lp.kind) == CALL && min < CALL);
                    let f2 = (f1 - 1) as nat;
                    let f3 = (f2 - 1) as nat;
                    assert(adv(state1) =~= calltail);
                    assert(sp_call_args(calltail, f3) == (
                        Some(arguments),
                        seq![rp] + rest,
                        Seq::<Seq<char>>::empty(),
                    ));
                    assert(sp_call(*function, calltail, f2) == (
                        Some(e),
                        seq![rp] + rest,
                        Seq::<Seq<char>>::empty(),
                    ));
                    let state2 = seq![rp] + rest;
                    assert(pk(state2) == (if rest.len() > 0 {
                        rest[0]
                    } else {
                        eof_tok()
                    }));
                    assert(sp_expression_rest(e, state2, min, f2) == (
                        Some(e),
                        state2,
                        Seq::<Seq<char>>::empty(),
                    ));
                    assert(sp_expression_rest(*function, state1, min, f1) == (
                        Some(e),
                        state2,
                        Seq::<Seq<char>>::empty(),
                    )) by {
                        assert(Seq::<Seq<char>>::empty() + Seq::<Seq<char>>::empty()
                            =~= Seq::<Seq<char>>::empty());
                    }
                    assert(sp_expression(ts, min, f) == (
                        Some(e),
                        state2,
                        Seq::<Seq<char>>::empty(),
                    )) by {
                        assert(Seq::<Seq<char>>::empty() + Seq::<Seq<char>>::empty()
                            =~= Seq::<Seq<char>>::empty());
                    }
                    assert(seq![expr_tokens(e).last()] + rest =~= state2);
                }
            },
            _ => {},
        }
    }
}

/// Parsing a rendered argument list from its opening parenthesis: the
/// arguments come back in order and the closing parenthesis is consumed.
#[verifier::rlimit(100)]
proof fn lemma_call_args_parse(arguments: Seq<ExprV>, rest: Seq<TokenV>)
    requires
        forall|i: int| 0 <= i < arguments.len() ==> wf_expr(#[trigger] arguments[i]),
    ensures
        forall|f: nat|
            f >= 6 * (seq![TokenV { kind: Kind::LParen, text: "("@ }] + args_tokens(arguments, 0)
                + seq![TokenV { kind: Kind::RParen, text: ")"@ }] + rest).len() + 8
                ==> sp_call_args(
                seq![TokenV { kind: Kind::LParen, text: "("@ }] + args_tokens(arguments, 0)
                    + seq![TokenV { kind: Kind::RParen, text: ")"@ }] + rest,
                f,
            ) == (
                Some(arguments),
                seq![TokenV { kind: Kind::RParen, text: ")"@ }] + rest,
                Seq::<Seq<char>>::empty(),
            ),
    decreases arguments, 2int, 1int,
{
    let lp = TokenV { kind: Kind::LParen, text: "("@ };
    let rp = TokenV { kind: Kind::RParen, text: ")"@ };
    let ts = seq![lp] + args_tokens(arguments, 0) + seq![rp] + rest;
    if arguments.len() == 0 {
        assert(ts =~= seq![lp, rp] + rest);
        assert forall|f: nat| f >= 6 * ts.len() + 8 implies sp_call_args(ts, f) == (
            Some(arguments),
            seq![rp] + rest,
            Seq::<Seq<char>>::empty(),
        ) by {
            assert(pk(ts) == rp);
            assert(adv(ts) =~= seq![rp] + rest);
            assert(arguments =~= Seq::<ExprV>::empty());
        }
    } else {
        lemma_call_args_parse_some(arguments, rest);
    }
}

/// Parsing a rendered non-empty argument list from its opening
/// parenthesis: the first argument, then the rest behind their commas.
#[verifier::rlimit(100)]
proof fn lemma_call_args_parse_some(arguments: Seq<ExprV>, rest: Seq<TokenV>)
    requires
        forall|i: int| 0 <= i < arguments.len() ==> wf_expr(#[trigger] arguments[i]),
        arguments.len() > 0,
    ensures
        forall|f: nat|
            f >= 6 * (seq![TokenV { kind: Kind::LParen, text: "("@ }] + args_tokens(arguments, 0)
                + seq![TokenV { kind: Kind::RParen, text: ")"@ }] + rest).len() + 8
                ==> sp_call_args(
                seq![TokenV { kind: Kind::LParen, text: "("@ }] + args_tokens(arguments, 0)
                    + seq![TokenV { kind: Kind::RParen, text: ")"@ }] + rest,
                f,
            ) == (
                Some(arguments),
                seq![TokenV { kind: Kind::RParen, text: ")"@ }] + rest,
                Seq::<Seq<char>>::empty(),
            ),
    decreases arguments, 2int, 0int,
{
    let lp = TokenV { kind: Kind::LParen, text: "("@ };
    let rp = TokenV { kind: Kind::RParen, text: ")"@ };
    let ts = seq![lp] + args_tokens(arguments, 0) + seq![rp] + rest;
    {
        lemma_args_tokens_split(arguments, 0);
        lemma_expr_tokens_shape(arguments[0]);
        let first_tail = args_tokens_rest(arguments, 1) + (seq![rp] + rest);
        assert(loop_stops(first_tail, LOWEST)) by {
            if arguments.len() > 1 {
                assert(first_tail[0].kind == Kind::Comma);
            } else {
                assert(first_tail =~= seq![rp] + rest);
            }
        }
        lemma_expr_parse(arguments[0], LOWEST, first_tail);
        assert(pk(ts) == expr_tokens(arguments[0])[0]);
        assert(pk(ts).kind != Kind::RParen);
        assert(adv(ts) =~= expr_tokens(arguments[0]) + first_tail);
        assert(seq![expr_tokens(arguments[0]).last()] + first_tail =~= seq![
            expr_tokens(arguments[0]).last(),
        ] + args_tokens_rest(arguments, 1) + seq![rp] + rest);
        assert(Seq::<Seq<char>>::empty() + Seq::<Seq<char>>::empty()
            =~= Seq::<Seq<char>>::empty());
        assert forall|f: nat| f >= 6 * ts.len() + 8 implies sp_call_args(ts, f) == (
            Some(arguments),
            seq![rp] + rest,
            Seq::<Seq<char>>::empty(),
        ) by {
            let f1 = (f - 1) as nat;
            assert(sp_expression(expr_tokens(arguments[0]) + first_tail, LOWEST, f1) == (
                Some(arguments[0]),
                seq![expr_tokens(arguments[0]).last()] + first_tail,
                Seq::<Seq<char>>::empty(),
            ));
            lemma_call_args_chain(
                arguments,
                1,
                seq![arguments[0]],
                expr_tokens(arguments[0]).last(),
                rest,
                f1,
            );
            assert(seq![arguments[0]] + arguments.skip(1) =~= arguments);
        }
    }
}

/// Parsing the arguments after the first: each comma brings the next, the
/// closing parenthesis ends the list, and the arguments gathered so far
/// come back followed by the remaining ones.
#[verifier::rlimit(100)]
proof fn lemma_call_args_chain(
    arguments: Seq<ExprV>,
    k: int,
    acc: Seq<ExprV>,
    last: TokenV,
    rest: Seq<TokenV>,
    f: nat,
)
    requires
        forall|i: int| 0 <= i < arguments.len() ==> wf_expr(#[trigger] arguments[i]),
        1 <= k <= arguments.len(),
        f >= 6 * (seq![last] + args_tokens_rest(arguments, k) + seq![
            TokenV { kind: Kind::RParen, text: ")"@ },
        ] + rest).len() + 8,
    ensures
        sp_call_args_rest(
            acc,
            seq![last] + args_tokens_rest(arguments, k) + seq![
                TokenV { kind: Kind::RParen, text: ")"@ },
            ] + rest,
            f,
        ) == (
            Some(acc + arguments.skip(k)),
            seq![TokenV { kind: Kind::RParen, text: ")"@ }] + rest,
            Seq::<Seq<char>>::empty(),
        ),
    decreases arguments, 1int, arguments.len() - k,
{
    let rp = TokenV { kind: Kind::RParen, text: ")"@ };
    let ts = seq![last] + args_tokens_rest(arguments, k) + seq![rp] + rest;
    if k >= arguments.len() {
        assert(ts =~= seq![last, rp] + rest);
        assert(pk(ts) == rp);
        assert(adv(ts) =~= seq![rp] + rest);
        assert(acc + arguments.skip(k) =~= acc);
    } else {
        let comma = TokenV { kind: Kind::Comma, text: ","@ };
        let arg_tail = args_tokens_rest(arguments, k + 1) + (seq![rp] + rest);
        lemma_expr_parse(arguments[k], LOWEST, arg_tail);
        assert(pk(ts) == comma);
        assert(adv(adv(ts)) =~= expr_tokens(arguments[k]) + arg_tail);
        assert(loop_stops(arg_tail, LOWEST)) by {
            if k + 1 < arguments.len() {
                assert(arg_tail[0].kind == Kind::Comma);
            } else {
                assert(arg_tail =~= seq![rp] + rest);
            }
        }
        let f1 = (f - 1) as nat;
        assert(sp_expression(expr_tokens(arguments[k]) + arg_tail, LOWEST, f1) == (
            Some(arguments[k]),
            seq![expr_tokens(arguments[k]).last()] + arg_tail,
            Seq::<Seq<char>>::empty(),
        ));
        assert(seq![expr_tokens(arguments[k]).last()] + arg_tail =~= seq![
            expr_tokens(arguments[k]).last(),
        ] + args_tokens_rest(arguments, k + 1) + seq![rp] + rest);
        lemma_call_args_chain(
            arguments,
            k + 1,
            acc.push(arguments[k]),
            expr_tokens(arguments[k]).last(),
            rest,
            f1,
        );
        assert(acc.push(arguments[k]) + arguments.skip(k + 1) =~= acc + arguments.skip(k));
        assert(Seq::<Seq<char>>::empty() + Seq::<Seq<char>>::empty()
            =~= Seq::<Seq<char>>::empty());
    }
}

} // verus!
