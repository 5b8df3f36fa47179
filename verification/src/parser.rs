//! The operator-precedence (Pratt) parser: consumes the token stream through
//! one token of lookahead and builds the syntax tree, collecting error
//! messages instead of failing.
//!
//! The specification side is a definitional parser: the `sp_` functions
//! recurse over the remaining token sequence exactly as the executable
//! parser runs, threading the fuel that bounds their recursion. Every
//! executable parsing function is proved to return precisely what its `sp_`
//! function says, for every sufficiently large fuel, so the contract pins
//! the tree, the final cursor and the error list down completely.
//!
//! The remaining input is modelled as the sequence of tokens not yet
//! consumed, the current token first. A parsing step that ends with the
//! cursor on the last token of a construct leaves that token at the head of
//! the sequence; `adv` drops one token, and reading past the end yields the
//! end-of-input token.

use vstd::prelude::*;

use crate::ast::{
    exprs_view, idents_view, stmts_view, BlockStatement, ExprV, Expression, IdentV, Identifer,
    Program, Statement, StmtV,
};
use crate::digits::spec_parse_i64;
use crate::lexer::Lexer;
use crate::token::{Kind, Token, TokenV};

verus! {

pub const LOWEST: i32 = 0;

pub const EQUALITY: i32 = 1;

pub const LESS_GREATER: i32 = 2;

pub const SUM: i32 = 3;

pub const PRODUCT: i32 = 4;

pub const PREFIX: i32 = 5;

pub const CALL: i32 = 6;

/// The token the parser sees past the end of the input.
pub open spec fn eof_tok() -> TokenV {
    TokenV { kind: Kind::Eof, text: Seq::empty() }
}

/// The current token of a remaining-input sequence.
pub open spec fn cur(ts: Seq<TokenV>) -> TokenV {
    if ts.len() > 0 {
        ts[0]
    } else {
        eof_tok()
    }
}

/// The lookahead token of a remaining-input sequence.
pub open spec fn pk(ts: Seq<TokenV>) -> TokenV {
    if ts.len() > 1 {
        ts[1]
    } else {
        eof_tok()
    }
}

/// The remaining input after one advance.
pub open spec fn adv(ts: Seq<TokenV>) -> Seq<TokenV> {
    if ts.len() > 0 {
        ts.drop_first()
    } else {
        ts
    }
}

/// The binding power of a token category when it stands between two
/// expressions. Categories that are no infix operator bind lowest.
pub open spec fn prec_of(k: Kind) -> i32 {
    match k {
        Kind::Eq => EQUALITY,
        Kind::Ne => EQUALITY,
        Kind::Lt => LESS_GREATER,
        Kind::Gt => LESS_GREATER,
        Kind::Plus => SUM,
        Kind::Minus => SUM,
        Kind::Asterix => PRODUCT,
        Kind::Slash => PRODUCT,
        Kind::LParen => CALL,
        _ => LOWEST,
    }
}

/// The token categories that combine two expressions.
pub open spec fn is_infix_op(k: Kind) -> bool {
    k == Kind::Plus || k == Kind::Minus || k == Kind::Asterix || k == Kind::Slash || k == Kind::Eq
        || k == Kind::Ne || k == Kind::Gt || k == Kind::Lt
}

/// The name of a token category, as an error message spells it.
pub open spec fn kind_name(k: Kind) -> Seq<char> {
    match k {
        Kind::Illegal => "Illegal"@,
        Kind::Eof => "Eof"@,
        Kind::Ident => "Ident"@,
        Kind::Int => "Int"@,
        Kind::Assign => "Assign"@,
        Kind::Plus => "Plus"@,
        Kind::Minus => "Minus"@,
        Kind::Asterix => "Asterix"@,
        Kind::Slash => "Slash"@,
        Kind::Bang => "Bang"@,
        Kind::Lt => "Lt"@,
        Kind::Gt => "Gt"@,
        Kind::Eq => "Eq"@,
        Kind::Ne => "Ne"@,
        Kind::Comma => "Comma"@,
        Kind::SemiColon => "SemiColon"@,
        Kind::LParen => "LParen"@,
        Kind::RParen => "RParen"@,
        Kind::LBrace => "LBrace"@,
        Kind::RBrace => "RBrace"@,
        Kind::Function => "Function"@,
        Kind::Let => "Let"@,
        Kind::True => "True"@,
        Kind::False => "False"@,
        Kind::If => "If"@,
        Kind::Else => "Else"@,
        Kind::Return => "Return"@,
    }
}

/// The message recorded when the lookahead token is not what the grammar
/// requires.
pub open spec fn peek_error_msg(expected: Kind, got: Kind) -> Seq<char> {
    "expected next token to be "@ + kind_name(expected) + ", got "@ + kind_name(got) + " instead"@
}

/// The message recorded when an integer literal's text does not fit a
/// 64-bit signed integer.
pub open spec fn int_error_msg(text: Seq<char>) -> Seq<char> {
    "could not parse "@ + text + " as integer"@
}

/// What parsing an expression at a minimum binding power yields: the
/// expression if one was built, the remaining input (the cursor resting on
/// the expression's last token), and the errors recorded.
pub open spec fn sp_expression(ts: Seq<TokenV>, min: i32, fuel: nat) -> (
    Option<ExprV>,
    Seq<TokenV>,
    Seq<Seq<char>>,
)
    decreases fuel,
{
    if fuel == 0 {
        (None, ts, Seq::empty())
    } else {
        let f = (fuel - 1) as nat;
        let first = sp_expression_first(ts, f);
        match first.0 {
            None => first,
            Some(l) => {
                let rest = sp_expression_rest(l, first.1, min, f);
                (rest.0, rest.1, first.2 + rest.2)
            },
        }
    }
}

/// The prefix step of expression parsing: the rule chosen by the current
/// token's category produces the initial expression. A category with no
/// prefix rule is a terminal parse failure for this expression.
pub open spec fn sp_expression_first(ts: Seq<TokenV>, fuel: nat) -> (
    Option<ExprV>,
    Seq<TokenV>,
    Seq<Seq<char>>,
)
    decreases fuel,
{
    if fuel == 0 {
        (None, ts, Seq::empty())
    } else {
        let f = (fuel - 1) as nat;
        let t = cur(ts);
        if t.kind == Kind::Ident {
            (Some(ExprV::Identifier(t.text)), ts, Seq::empty())
        } else if t.kind == Kind::Int {
            match spec_parse_i64(t.text) {
                Some(v) => (Some(ExprV::IntegerLiteral(v)), ts, Seq::empty()),
                None => (None, ts, seq![int_error_msg(t.text)]),
            }
        } else if t.kind == Kind::True {
            (Some(ExprV::BooleanLiteral(true)), ts, Seq::empty())
        } else if t.kind == Kind::False {
            (Some(ExprV::BooleanLiteral(false)), ts, Seq::empty())
        } else if t.kind == Kind::Bang || t.kind == Kind::Minus {
            sp_prefix(ts, f)
        } else if t.kind == Kind::LParen {
            sp_grouped(ts, f)
        } else if t.kind == Kind::If {
            sp_if(ts, f)
        } else if t.kind == Kind::Function {
            sp_function(ts, f)
        } else {
            (None, ts, Seq::empty())
        }
    }
}

/// The precedence loop: while the lookahead binds tighter than `min` and is
/// no statement end, combine `left` with what follows.
pub open spec fn sp_expression_rest(left: ExprV, ts: Seq<TokenV>, min: i32, fuel: nat) -> (
    Option<ExprV>,
    Seq<TokenV>,
    Seq<Seq<char>>,
)
    decreases fuel,
{
    if fuel == 0 {
        (None, ts, Seq::empty())
    } else {
        let f = (fuel - 1) as nat;
        let p = pk(ts);
        if p.kind == Kind::SemiColon || min >= prec_of(p.kind) {
            (Some(left), ts, Seq::empty())
        } else if is_infix_op(p.kind) {
            let r = sp_infix(left, adv(ts), f);
            match r.0 {
                None => (None, r.1, r.2),
                Some(l2) => {
                    let q = sp_expression_rest(l2, r.1, min, f);
                    (q.0, q.1, r.2 + q.2)
                },
            }
        } else if p.kind == Kind::LParen {
            let r = sp_call(left, adv(ts), f);
            match r.0 {
                None => (None, r.1, r.2),
                Some(l2) => {
                    let q = sp_expression_rest(l2, r.1, min, f);
                    (q.0, q.1, r.2 + q.2)
                },
            }
        } else {
            (Some(left), ts, Seq::empty())
        }
    }
}

/// A prefix operator applied to the expression after it.
pub open spec fn sp_prefix(ts: Seq<TokenV>, fuel: nat) -> (
    Option<ExprV>,
    Seq<TokenV>,
    Seq<Seq<char>>,
)
    decreases fuel,
{
    if fuel == 0 {
        (None, ts, Seq::empty())
    } else {
        let op = cur(ts);
        let r = sp_expression(adv(ts), PREFIX, (fuel - 1) as nat);
        match r.0 {
            Some(x) => (
                Some(ExprV::Prefix { operator: op.text, right: Box::new(x) }),
                r.1,
                r.2,
            ),
            None => (None, r.1, r.2),
        }
    }
}

/// A parenthesized expression: the group contributes only its inner
/// expression, and the closing parenthesis is required.
pub open spec fn sp_grouped(ts: Seq<TokenV>, fuel: nat) -> (
    Option<ExprV>,
    Seq<TokenV>,
    Seq<Seq<char>>,
)
    decreases fuel,
{
    if fuel == 0 {
        (None, ts, Seq::empty())
    } else {
        let r = sp_expression(adv(ts), LOWEST, (fuel - 1) as nat);
        if pk(r.1).kind == Kind::RParen {
            (r.0, adv(r.1), r.2)
        } else {
            (None, r.1, r.2.push(peek_error_msg(Kind::RParen, pk(r.1).kind)))
        }
    }
}

/// An infix operator combining `left` with the expression after it, parsed
/// at the operator's own binding power (left associativity).
pub open spec fn sp_infix(left: ExprV, ts: Seq<TokenV>, fuel: nat) -> (
    Option<ExprV>,
    Seq<TokenV>,
    Seq<Seq<char>>,
)
    decreases fuel,
{
    if fuel == 0 {
        (None, ts, Seq::empty())
    } else {
        let op = cur(ts);
        let r = sp_expression(adv(ts), prec_of(op.kind), (fuel - 1) as nat);
        match r.0 {
            Some(x) => (
                Some(
                    ExprV::Infix {
                        left: Box::new(left),
                        operator: op.text,
                        right: Box::new(x),
                    },
                ),
                r.1,
                r.2,
            ),
            None => (None, r.1, r.2),
        }
    }
}

/// A call of `left` on a comma-separated argument list.
pub open spec fn sp_call(left: ExprV, ts: Seq<TokenV>, fuel: nat) -> (
    Option<ExprV>,
    Seq<TokenV>,
    Seq<Seq<char>>,
)
    decreases fuel,
{
    if fuel == 0 {
        (None, ts, Seq::empty())
    } else {
        let r = sp_call_args(ts, (fuel - 1) as nat);
        match r.0 {
            Some(args) => (
                Some(ExprV::Call { function: Box::new(left), arguments: args }),
                r.1,
                r.2,
            ),
            None => (None, r.1, r.2),
        }
    }
}

/// The argument list of a call, the cursor resting on the opening
/// parenthesis; an empty list is permitted.
pub open spec fn sp_call_args(ts: Seq<TokenV>, fuel: nat) -> (
    Option<Seq<ExprV>>,
    Seq<TokenV>,
    Seq<Seq<char>>,
)
    decreases fuel,
{
    if fuel == 0 {
        (None, ts, Seq::empty())
    } else {
        let f = (fuel - 1) as nat;
        if pk(ts).kind == Kind::RParen {
            (Some(Seq::empty()), adv(ts), Seq::empty())
        } else {
            let r = sp_expression(adv(ts), LOWEST, f);
            match r.0 {
                None => (None, r.1, r.2),
                Some(x) => {
                    let q = sp_call_args_rest(seq![x], r.1, f);
                    (q.0, q.1, r.2 + q.2)
                },
            }
        }
    }
}

/// The arguments after the first: as long as a comma follows, another
/// expression is parsed; then the closing parenthesis is required.
pub open spec fn sp_call_args_rest(acc: Seq<ExprV>, ts: Seq<TokenV>, fuel: nat) -> (
    Option<Seq<ExprV>>,
    Seq<TokenV>,
    Seq<Seq<char>>,
)
    decreases fuel,
{
    if fuel == 0 {
        (None, ts, Seq::empty())
    } else {
        let f = (fuel - 1) as nat;
        if pk(ts).kind == Kind::Comma {
            let r = sp_expression(adv(adv(ts)), LOWEST, f);
            match r.0 {
                None => (None, r.1, r.2),
                Some(x) => {
                    let q = sp_call_args_rest(acc.push(x), r.1, f);
                    (q.0, q.1, r.2 + q.2)
                },
            }
        } else if pk(ts).kind == Kind::RParen {
            (Some(acc), adv(ts), Seq::empty())
        } else {
            (None, ts, seq![peek_error_msg(Kind::RParen, pk(ts).kind)])
        }
    }
}

/// An `if` expression: a parenthesized condition, a braced consequence, and
/// optionally `else` with a braced alternative.
pub open spec fn sp_if(ts: Seq<TokenV>, fuel: nat) -> (Option<ExprV>, Seq<TokenV>, Seq<Seq<char>>)
    decreases fuel,
{
    if fuel == 0 {
        (None, ts, Seq::empty())
    } else {
        let f = (fuel - 1) as nat;
        if pk(ts).kind != Kind::LParen {
            (None, ts, seq![peek_error_msg(Kind::LParen, pk(ts).kind)])
        } else {
            let r = sp_expression(adv(adv(ts)), LOWEST, f);
            match r.0 {
                None => (None, r.1, r.2),
                Some(c) => {
                    if pk(r.1).kind != Kind::RParen {
                        (None, r.1, r.2.push(peek_error_msg(Kind::RParen, pk(r.1).kind)))
                    } else if pk(adv(r.1)).kind != Kind::LBrace {
                        (
                            None,
                            adv(r.1),
                            r.2.push(peek_error_msg(Kind::LBrace, pk(adv(r.1)).kind)),
                        )
                    } else {
                        let b = sp_block(adv(adv(r.1)), f);
                        if pk(b.1).kind == Kind::Else {
                            if pk(adv(b.1)).kind != Kind::LBrace {
                                (
                                    None,
                                    adv(b.1),
                                    r.2 + b.2 + seq![
                                        peek_error_msg(Kind::LBrace, pk(adv(b.1)).kind),
                                    ],
                                )
                            } else {
                                let a = sp_block(adv(adv(b.1)), f);
                                (
                                    Some(
                                        ExprV::If {
                                            condition: Box::new(c),
                                            consequence: b.0,
                                            alternative: Some(a.0),
                                        },
                                    ),
                                    a.1,
                                    r.2 + b.2 + a.2,
                                )
                            }
                        } else {
                            (
                                Some(
                                    ExprV::If {
                                        condition: Box::new(c),
                                        consequence: b.0,
                                        alternative: None,
                                    },
                                ),
                                b.1,
                                r.2 + b.2,
                            )
                        }
                    }
                },
            }
        }
    }
}

/// A function literal: a parenthesized parameter list and a braced body.
pub open spec fn sp_function(ts: Seq<TokenV>, fuel: nat) -> (
    Option<ExprV>,
    Seq<TokenV>,
    Seq<Seq<char>>,
)
    decreases fuel,
{
    if fuel == 0 {
        (None, ts, Seq::empty())
    } else {
        let f = (fuel - 1) as nat;
        if pk(ts).kind != Kind::LParen {
            (None, ts, seq![peek_error_msg(Kind::LParen, pk(ts).kind)])
        } else {
            let p = sp_params(adv(ts), f);
            match p.0 {
                None => (None, p.1, p.2),
                Some(ps) => {
                    if pk(p.1).kind != Kind::LBrace {
                        (None, p.1, p.2.push(peek_error_msg(Kind::LBrace, pk(p.1).kind)))
                    } else {
                        let b = sp_block(adv(p.1), f);
                        (
                            Some(ExprV::FunctionLiteral { parameters: ps, body: b.0 }),
                            b.1,
                            p.2 + b.2,
                        )
                    }
                },
            }
        }
    }
}

/// A comma-separated list of bare parameter names, the cursor resting on
/// the opening parenthesis; an empty list is permitted.
pub open spec fn sp_params(ts: Seq<TokenV>, fuel: nat) -> (
    Option<Seq<IdentV>>,
    Seq<TokenV>,
    Seq<Seq<char>>,
)
    decreases fuel,
{
    if fuel == 0 {
        (None, ts, Seq::empty())
    } else {
        if pk(ts).kind == Kind::RParen {
            (Some(Seq::empty()), adv(ts), Seq::empty())
        } else {
            let t = pk(ts);
            sp_params_rest(seq![IdentV { token: t, text: t.text }], adv(ts), (fuel - 1) as nat)
        }
    }
}

/// The parameters after the first: as long as a comma follows, another name
/// is taken; then the closing parenthesis is required.
pub open spec fn sp_params_rest(acc: Seq<IdentV>, ts: Seq<TokenV>, fuel: nat) -> (
    Option<Seq<IdentV>>,
    Seq<TokenV>,
    Seq<Seq<char>>,
)
    decreases fuel,
{
    if fuel == 0 {
        (None, ts, Seq::empty())
    } else {
        if pk(ts).kind == Kind::Comma {
            let t = pk(adv(ts));
            sp_params_rest(
                acc.push(IdentV { token: t, text: t.text }),
                adv(adv(ts)),
                (fuel - 1) as nat,
            )
        } else if pk(ts).kind == Kind::RParen {
            (Some(acc), adv(ts), Seq::empty())
        } else {
            (None, ts, seq![peek_error_msg(Kind::RParen, pk(ts).kind)])
        }
    }
}

/// What parsing one statement yields. A `let` requires a name and an
/// assignment sign; a missing required token aborts the statement, records
/// a message, and leaves the cursor where the check happened. A trailing
/// semicolon is consumed but not required.
pub open spec fn sp_statement(ts: Seq<TokenV>, fuel: nat) -> (
    Option<StmtV>,
    Seq<TokenV>,
    Seq<Seq<char>>,
)
    decreases fuel,
{
    if fuel == 0 {
        (None, ts, Seq::empty())
    } else {
        let f = (fuel - 1) as nat;
        if cur(ts).kind == Kind::Let {
            if pk(ts).kind != Kind::Ident {
                (None, ts, seq![peek_error_msg(Kind::Ident, pk(ts).kind)])
            } else {
                let nt = pk(ts);
                let name = IdentV { token: nt, text: nt.text };
                if pk(adv(ts)).kind != Kind::Assign {
                    (None, adv(ts), seq![peek_error_msg(Kind::Assign, pk(adv(ts)).kind)])
                } else {
                    let r = sp_expression(adv(adv(adv(ts))), LOWEST, f);
                    match r.0 {
                        None => (None, r.1, r.2),
                        Some(v) => {
                            let rest = if pk(r.1).kind == Kind::SemiColon {
                                adv(r.1)
                            } else {
                                r.1
                            };
                            (Some(StmtV::Let { name, value: v }), rest, r.2)
                        },
                    }
                }
            }
        } else if cur(ts).kind == Kind::Return {
            let r = sp_expression(adv(ts), LOWEST, f);
            match r.0 {
                None => (None, r.1, r.2),
                Some(v) => {
                    let rest = if pk(r.1).kind == Kind::SemiColon {
                        adv(r.1)
                    } else {
                        r.1
                    };
                    (Some(StmtV::Return(v)), rest, r.2)
                },
            }
        } else {
            let t0 = cur(ts);
            let r = sp_expression(ts, LOWEST, f);
            match r.0 {
                None => (None, r.1, r.2),
                Some(v) => {
                    let rest = if pk(r.1).kind == Kind::SemiColon {
                        adv(r.1)
                    } else {
                        r.1
                    };
                    (Some(StmtV::Expression { token: t0, expr: v }), rest, r.2)
                },
            }
        }
    }
}

/// A block: the opening brace is consumed, then statements are parsed until
/// a closing brace or the end of the input, which is left as the cursor.
pub open spec fn sp_block(ts: Seq<TokenV>, fuel: nat) -> (Seq<StmtV>, Seq<TokenV>, Seq<Seq<char>>)
    decreases fuel,
{
    if fuel == 0 {
        (Seq::empty(), ts, Seq::empty())
    } else {
        sp_block_rest(adv(ts), (fuel - 1) as nat)
    }
}

/// The statements of a block; a statement that was aborted contributes
/// nothing, and the cursor advances past each statement's last token.
pub open spec fn sp_block_rest(ts: Seq<TokenV>, fuel: nat) -> (
    Seq<StmtV>,
    Seq<TokenV>,
    Seq<Seq<char>>,
)
    decreases fuel,
{
    if fuel == 0 {
        (Seq::empty(), ts, Seq::empty())
    } else {
        let f = (fuel - 1) as nat;
        if cur(ts).kind == Kind::RBrace || cur(ts).kind == Kind::Eof {
            (Seq::empty(), ts, Seq::empty())
        } else {
            let r = sp_statement(ts, f);
            let q = sp_block_rest(adv(r.1), f);
            let here: Seq<StmtV> = match r.0 {
                Some(s) => seq![s],
                None => Seq::empty(),
            };
            (here + q.0, q.1, r.2 + q.2)
        }
    }
}

/// What parsing a whole program yields: the top-level statements and every
/// error recorded along the way.
pub open spec fn sp_program(ts: Seq<TokenV>, fuel: nat) -> (Seq<StmtV>, Seq<Seq<char>>)
    decreases fuel,
{
    if fuel == 0 {
        (Seq::empty(), Seq::empty())
    } else {
        let f = (fuel - 1) as nat;
        if cur(ts).kind == Kind::Eof {
            (Seq::empty(), Seq::empty())
        } else {
            let r = sp_statement(ts, f);
            let q = sp_program(adv(r.1), f);
            let here: Seq<StmtV> = match r.0 {
                Some(s) => seq![s],
                None => Seq::empty(),
            };
            (here + q.0, r.2 + q.1)
        }
    }
}

/// The view of an optional expression node.
pub open spec fn opt_expr_view(r: Option<Expression>) -> Option<ExprV> {
    match r {
        Some(e) => Some(e@),
        None => None,
    }
}

/// The view of an optional statement node.
pub open spec fn opt_stmt_view(r: Option<Statement>) -> Option<StmtV> {
    match r {
        Some(s) => Some(s@),
        None => None,
    }
}

/// The view of an optional argument list.
pub open spec fn opt_exprs_view(r: Option<Vec<Expression>>) -> Option<Seq<ExprV>> {
    match r {
        Some(v) => Some(exprs_view(v@)),
        None => None,
    }
}

/// The view of an optional parameter list.
pub open spec fn opt_idents_view(r: Option<Vec<Identifer>>) -> Option<Seq<IdentV>> {
    match r {
        Some(v) => Some(idents_view(v@)),
        None => None,
    }
}

fn kind_name_str(k: Kind) -> (r: &'static str)
    ensures
        r@ == kind_name(k),
{
    match k {
        Kind::Illegal => "Illegal",
        Kind::Eof => "Eof",
        Kind::Ident => "Ident",
        Kind::Int => "Int",
        Kind::Assign => "Assign",
        Kind::Plus => "Plus",
        Kind::Minus => "Minus",
        Kind::Asterix => "Asterix",
        Kind::Slash => "Slash",
        Kind::Bang => "Bang",
        Kind::Lt => "Lt",
        Kind::Gt => "Gt",
        Kind::Eq => "Eq",
        Kind::Ne => "Ne",
        Kind::Comma => "Comma",
        Kind::SemiColon => "SemiColon",
        Kind::LParen => "LParen",
        Kind::RParen => "RParen",
        Kind::LBrace => "LBrace",
        Kind::RBrace => "RBrace",
        Kind::Function => "Function",
        Kind::Let => "Let",
        Kind::True => "True",
        Kind::False => "False",
        Kind::If => "If",
        Kind::Else => "Else",
        Kind::Return => "Return",
    }
}

/// Splitting an error list at two marks: what came after the first mark is
/// what came between the marks and then what came after the second.
proof fn lemma_errs_chain(e0: Seq<Seq<char>>, e1: Seq<Seq<char>>, e2: Seq<Seq<char>>)
    requires
        e0.len() <= e1.len(),
        e1.len() <= e2.len(),
        e1.subrange(0, e0.len() as int) == e0,
        e2.subrange(0, e1.len() as int) == e1,
    ensures
        e2.subrange(0, e0.len() as int) == e0,
        e2.skip(e0.len() as int) == e1.skip(e0.len() as int) + e2.skip(e1.len() as int),
{
    assert forall|j: int| 0 <= j < e1.len() implies e2[j] == e1[j] by {
        assert(e1[j] == e2.subrange(0, e1.len() as int)[j]);
    }
    assert(e2.subrange(0, e0.len() as int) =~= e0);
    assert(e2.skip(e0.len() as int) =~= e1.skip(e0.len() as int) + e2.skip(e1.len() as int));
}

/// Pulls the next token from the tokenizer, or the end-of-input token once
/// the stream is exhausted.
fn next_token_or_eof(lexer: &mut Lexer) -> (t: Token)
    requires
        old(lexer).wf(),
    ensures
        final(lexer).wf(),
        ({
            let s = old(lexer).stream();
            if s.len() > 0 {
                t@ == s[0] && final(lexer).stream() == s.drop_first()
            } else {
                t@ == eof_tok() && final(lexer).stream() == s
            }
        }),
{
    match lexer.next() {
        Some(t) => t,
        None => {
            proof {
                assert(lexer.stream() =~= old(lexer).stream());
            }
            Token::new(Kind::Eof, String::new())
        },
    }
}

/// The parser. It owns the tokenizer, holds the current and lookahead
/// tokens, and collects error messages instead of failing.
pub struct Parser {
    lexer: Lexer,
    pub errors: Vec<String>,
    current_token: Token,
    peek_token: Token,
}

impl Parser {
    /// The state invariant: once the end of input is reached the token
    /// slots hold the end-of-input token (with an empty literal) and the
    /// tokenizer is exhausted, and the stream never yields that token.
    pub closed spec fn wf(self) -> bool {
        &&& self.lexer.wf()
        &&& (forall|j: int|
            0 <= j < self.lexer.stream().len() ==> (#[trigger] self.lexer.stream()[j]).kind
                != Kind::Eof)
        &&& (self.current_token@.kind == Kind::Eof ==> self.current_token@.text
            == Seq::<char>::empty() && self.peek_token@.kind == Kind::Eof)
        &&& (self.peek_token@.kind == Kind::Eof ==> self.peek_token@.text == Seq::<char>::empty()
            && self.lexer.stream().len() == 0)
    }

    /// The tokens not yet consumed, the current token first.
    pub closed spec fn toks(self) -> Seq<TokenV> {
        if self.current_token@.kind == Kind::Eof {
            Seq::empty()
        } else if self.peek_token@.kind == Kind::Eof {
            seq![self.current_token@]
        } else {
            seq![self.current_token@, self.peek_token@] + self.lexer.stream()
        }
    }

    /// The error messages recorded so far.
    pub closed spec fn errs(self) -> Seq<Seq<char>> {
        self.errors.deep_view()
    }

    /// The error messages recorded so far, as the strings a caller can
    /// print.
    pub fn error_messages(&self) -> (r: &Vec<String>)
        ensures
            r.deep_view() == self.errs(),
    {
        &self.errors
    }

    /// The token slots agree with the head of the remaining input.
    proof fn lemma_heads(self)
        requires
            self.wf(),
        ensures
            cur(self.toks()) == self.current_token@,
            pk(self.toks()) == self.peek_token@,
    {
    }

    pub fn new(lexer: Lexer) -> (p: Parser)
        requires
            lexer.wf(),
        ensures
            p.wf(),
            p.toks() == lexer.stream(),
            p.errs() == Seq::<Seq<char>>::empty(),
    {
        let ghost s0 = lexer.stream();
        let mut lx = lexer;
        proof {
            lx.lemma_stream_no_eof();
        }
        let current_token = next_token_or_eof(&mut lx);
        proof {
            lx.lemma_stream_no_eof();
        }
        let peek_token = next_token_or_eof(&mut lx);
        let errors: Vec<String> = Vec::new();
        let p = Parser { lexer: lx, errors, current_token, peek_token };
        proof {
            p.lexer.lemma_stream_no_eof();
            if s0.len() == 0 {
                assert(p.toks() =~= s0);
            } else if s0.len() == 1 {
                assert(p.toks() =~= s0);
            } else {
                assert(p.lexer.stream() =~= s0.drop_first().drop_first());
                assert(p.toks() =~= s0);
            }
            assert(p.errs() =~= Seq::<Seq<char>>::empty());
        }
        p
    }

    /// Shifts the lookahead into the current slot and pulls the next token.
    fn next_token(&mut self)
        requires
            old(self).wf(),
        ensures
            final(self).wf(),
            final(self).errs() == old(self).errs(),
            final(self).toks() == adv(old(self).toks()),
    {
        self.current_token = self.peek_token.clone();
        let t = next_token_or_eof(&mut self.lexer);
        self.peek_token = t;
        proof {
            self.lexer.lemma_stream_no_eof();
            let o = *old(self);
            if o.peek_token@.kind == Kind::Eof {
                assert(self.toks() =~= adv(o.toks()));
            } else if o.lexer.stream().len() == 0 {
                assert(self.toks() =~= adv(o.toks()));
            } else {
                assert(self.toks() =~= adv(o.toks()));
            }
        }
    }

    /// Records that the lookahead token was not what the grammar requires.
    fn peek_error(&mut self, token_kind: Kind)
        requires
            old(self).wf(),
        ensures
            final(self).wf(),
            final(self).toks() == old(self).toks(),
            final(self).errs() == old(self).errs().push(
                peek_error_msg(token_kind, pk(old(self).toks()).kind),
            ),
    {
        proof {
            self.lemma_heads();
        }
        let mut msg = String::new();
        msg.append("expected next token to be ");
        msg.append(kind_name_str(token_kind));
        msg.append(", got ");
        msg.append(kind_name_str(self.peek_token.kind));
        msg.append(" instead");
        proof {
            assert(msg@ =~= peek_error_msg(token_kind, self.peek_token@.kind));
        }
        self.errors.push(msg);
        proof {
            assert(self.errs() =~= old(self).errs().push(
                peek_error_msg(token_kind, pk(old(self).toks()).kind),
            ));
        }
    }

    /// Advances when the lookahead has the expected category; otherwise
    /// records a message and stays put.
    fn expect_peek(&mut self, expected_token: Kind) -> (r: bool)
        requires
            old(self).wf(),
        ensures
            final(self).wf(),
            r == (pk(old(self).toks()).kind == expected_token),
            r ==> final(self).toks() == adv(old(self).toks()) && final(self).errs() == old(
                self,
            ).errs(),
            !r ==> final(self).toks() == old(self).toks() && final(self).errs() == old(
                self,
            ).errs().push(peek_error_msg(expected_token, pk(old(self).toks()).kind)),
    {
        proof {
            self.lemma_heads();
        }
        if expected_token == self.peek_token.kind {
            self.next_token();
            true
        } else {
            self.peek_error(expected_token);
            false
        }
    }

    /// The binding power of the lookahead token.
    fn peek_precedence(&self) -> (p: i32)
        requires
            self.wf(),
        ensures
            p == prec_of(pk(self.toks()).kind),
    {
        proof {
            self.lemma_heads();
        }
        match self.peek_token.kind {
            Kind::Eq | Kind::Ne => EQUALITY,
            Kind::Lt | Kind::Gt => LESS_GREATER,
            Kind::Plus | Kind::Minus => SUM,
            Kind::Asterix | Kind::Slash => PRODUCT,
            Kind::LParen => CALL,
            _ => LOWEST,
        }
    }

    /// A bare identifier expression: the current token's literal.
    fn parse_identifier(&self) -> (r: Option<Expression>)
        requires
            self.wf(),
        ensures
            opt_expr_view(r) == Some(ExprV::Identifier(cur(self.toks()).text)),
    {
        proof {
            self.lemma_heads();
        }
        Some(Expression::Identifier(self.current_token.literal.clone()))
    }

    /// An integer literal: the current token's text read as a 64-bit signed
    /// integer; text that does not fit records an error and yields nothing.
    fn parse_integer_literal(&mut self) -> (r: Option<Expression>)
        requires
            old(self).wf(),
        ensures
            final(self).wf(),
            final(self).toks() == old(self).toks(),
            match spec_parse_i64(cur(old(self).toks()).text) {
                Some(v) => opt_expr_view(r) == Some(ExprV::IntegerLiteral(v)) && final(self).errs()
                    == old(self).errs(),
                None => r is None && final(self).errs() == old(self).errs().push(
                    int_error_msg(cur(old(self).toks()).text),
                ),
            },
    {
        proof {
            self.lemma_heads();
        }
        match crate::digits::parse_i64(self.current_token.literal.as_str()) {
            Some(v) => Some(Expression::IntegerLiteral(v)),
            None => {
                let mut msg = String::new();
                msg.append("could not parse ");
                msg.append(self.current_token.literal.as_str());
                msg.append(" as integer");
                proof {
                    assert(msg@ =~= int_error_msg(cur(old(self).toks()).text));
                }
                self.errors.push(msg);
                proof {
                    assert(self.errs() =~= old(self).errs().push(
                        int_error_msg(cur(old(self).toks()).text),
                    ));
                }
                None
            },
        }
    }

    /// A boolean literal: whether the current token is the `true` keyword.
    fn parse_boolean_literal(&self) -> (r: Option<Expression>)
        requires
            self.wf(),
        ensures
            opt_expr_view(r) == Some(ExprV::BooleanLiteral(cur(self.toks()).kind == Kind::True)),
    {
        proof {
            self.lemma_heads();
        }
        Some(Expression::BooleanLiteral(self.current_token.kind == Kind::True))
    }

    /// The binding power of the current token.
    fn current_precedence(&self) -> (p: i32)
        requires
            self.wf(),
        ensures
            p == prec_of(cur(self.toks()).kind),
    {
        proof {
            self.lemma_heads();
        }
        match self.current_token.kind {
            Kind::Eq | Kind::Ne => EQUALITY,
            Kind::Lt | Kind::Gt => LESS_GREATER,
            Kind::Plus | Kind::Minus => SUM,
            Kind::Asterix | Kind::Slash => PRODUCT,
            Kind::LParen => CALL,
            _ => LOWEST,
        }
    }

    /// Parses one expression at a minimum binding power, leaving the cursor
    /// on the expression's last token. Yields nothing when the current
    /// token has no prefix rule or a required token was missing; the errors
    /// recorded say which.
    fn parse_expression(&mut self, precedence: i32) -> (r: Option<Expression>)
        requires
            old(self).wf(),
        ensures
            final(self).wf(),
            final(self).toks().len() <= old(self).toks().len(),
            old(self).errs().len() <= final(self).errs().len(),
            final(self).errs().subrange(0, old(self).errs().len() as int) == old(self).errs(),
            forall|f: nat|
                f >= 6 * old(self).toks().len() + 10 ==> sp_expression(
                    old(self).toks(),
                    precedence,
                    f,
                ) == (
                    opt_expr_view(r),
                    final(self).toks(),
                    final(self).errs().skip(old(self).errs().len() as int),
                ),
        decreases old(self).toks().len(), 4int,
    {
        let ghost ts0 = self.toks();
        let ghost e0 = self.errs();
        proof {
            self.lemma_heads();
        }
        let kind0 = self.current_token.kind;
        let left_opt: Option<Expression>;
        if kind0 == Kind::Ident {
            left_opt = self.parse_identifier();
            proof {
                assert forall|f: nat| f >= 6 * ts0.len() + 9 implies sp_expression_first(ts0, f)
                    == (opt_expr_view(left_opt), self.toks(), self.errs().skip(
                    e0.len() as int,
                )) by {
                    assert(self.errs().skip(e0.len() as int) =~= Seq::<Seq<char>>::empty());
                }
            }
        } else if kind0 == Kind::Int {
            left_opt = self.parse_integer_literal();
            proof {
                assert forall|f: nat| f >= 6 * ts0.len() + 9 implies sp_expression_first(ts0, f)
                    == (opt_expr_view(left_opt), self.toks(), self.errs().skip(
                    e0.len() as int,
                )) by {
                    if spec_parse_i64(cur(ts0).text) is Some {
                        assert(self.errs().skip(e0.len() as int) =~= Seq::<Seq<char>>::empty());
                    } else {
                        assert(self.errs().skip(e0.len() as int) =~= seq![
                            int_error_msg(cur(ts0).text),
                        ]);
                    }
                }
            }
        } else if kind0 == Kind::True || kind0 == Kind::False {
            left_opt = self.parse_boolean_literal();
            proof {
                assert forall|f: nat| f >= 6 * ts0.len() + 9 implies sp_expression_first(ts0, f)
                    == (opt_expr_view(left_opt), self.toks(), self.errs().skip(
                    e0.len() as int,
                )) by {
                    assert(self.errs().skip(e0.len() as int) =~= Seq::<Seq<char>>::empty());
                }
            }
        } else if kind0 == Kind::Bang || kind0 == Kind::Minus {
            left_opt = self.parse_prefix();
            proof {
                assert forall|f: nat| f >= 6 * ts0.len() + 9 implies sp_expression_first(ts0, f)
                    == (opt_expr_view(left_opt), self.toks(), self.errs().skip(
                    e0.len() as int,
                )) by {
                    let fm = (f - 1) as nat;
                    assert(sp_prefix(ts0, fm) == (
                        opt_expr_view(left_opt),
                        self.toks(),
                        self.errs().skip(e0.len() as int),
                    ));
                }
            }
        } else if kind0 == Kind::LParen {
            left_opt = self.parse_grouped_expression();
            proof {
                assert forall|f: nat| f >= 6 * ts0.len() + 9 implies sp_expression_first(ts0, f)
                    == (opt_expr_view(left_opt), self.toks(), self.errs().skip(
                    e0.len() as int,
                )) by {
                    let fm = (f - 1) as nat;
                    assert(sp_grouped(ts0, fm) == (
                        opt_expr_view(left_opt),
                        self.toks(),
                        self.errs().skip(e0.len() as int),
                    ));
                }
            }
        } else if kind0 == Kind::If {
            left_opt = self.parse_if_expression();
            proof {
                assert forall|f: nat| f >= 6 * ts0.len() + 9 implies sp_expression_first(ts0, f)
                    == (opt_expr_view(left_opt), self.toks(), self.errs().skip(
                    e0.len() as int,
                )) by {
                    let fm = (f - 1) as nat;
                    assert(sp_if(ts0, fm) == (
                        opt_expr_view(left_opt),
                        self.toks(),
                        self.errs().skip(e0.len() as int),
                    ));
                }
            }
        } else if kind0 == Kind::Function {
            left_opt = self.parse_function_literal();
            proof {
                assert forall|f: nat| f >= 6 * ts0.len() + 9 implies sp_expression_first(ts0, f)
                    == (opt_expr_view(left_opt), self.toks(), self.errs().skip(
                    e0.len() as int,
                )) by {
                    let fm = (f - 1) as nat;
                    assert(sp_function(ts0, fm) == (
                        opt_expr_view(left_opt),
                        self.toks(),
                        self.errs().skip(e0.len() as int),
                    ));
                }
            }
        } else {
            left_opt = None;
            proof {
                assert forall|f: nat| f >= 6 * ts0.len() + 9 implies sp_expression_first(ts0, f)
                    == (opt_expr_view(left_opt), self.toks(), self.errs().skip(
                    e0.len() as int,
                )) by {
                    assert(self.errs().skip(e0.len() as int) =~= Seq::<Seq<char>>::empty());
                }
            }
        }
        let ghost ts1 = self.toks();
        let ghost e1 = self.errs();
        match left_opt {
            None => {
                proof {
                    assert forall|f: nat| f >= 6 * ts0.len() + 10 implies sp_expression(
                        ts0,
                        precedence,
                        f,
                    ) == (None::<ExprV>, ts1, e1.skip(e0.len() as int)) by {
                        let fm = (f - 1) as nat;
                        assert(sp_expression_first(ts0, fm) == (
                            None::<ExprV>,
                            ts1,
                            e1.skip(e0.len() as int),
                        ));
                    }
                }
                None
            },
            Some(left) => {
                let ghost lv = left@;
                let r = self.parse_expression_rest(left, precedence);
                let ghost ts2 = self.toks();
                let ghost e2 = self.errs();
                proof {
                    assert(e0.len() <= e1.len());
                    assert(e1.subrange(0, e0.len() as int) =~= e0);
                    lemma_errs_chain(e0, e1, e2);
                    assert forall|f: nat| f >= 6 * ts0.len() + 10 implies sp_expression(
                        ts0,
                        precedence,
                        f,
                    ) == (opt_expr_view(r), ts2, e2.skip(e0.len() as int)) by {
                        let fm = (f - 1) as nat;
                        assert(sp_expression_first(ts0, fm) == (
                            Some(lv),
                            ts1,
                            e1.skip(e0.len() as int),
                        ));
                        assert(sp_expression_rest(lv, ts1, precedence, fm) == (
                            opt_expr_view(r),
                            ts2,
                            e2.skip(e1.len() as int),
                        ));
                    }
                }
                r
            },
        }
    }

    /// The precedence loop: while the lookahead binds tighter than the
    /// minimum and is no semicolon, folds infix operators and calls onto
    /// the expression built so far.
    fn parse_expression_rest(&mut self, left: Expression, precedence: i32) -> (r: Option<
        Expression,
    >)
        requires
            old(self).wf(),
        ensures
            final(self).wf(),
            final(self).toks().len() <= old(self).toks().len(),
            old(self).errs().len() <= final(self).errs().len(),
            final(self).errs().subrange(0, old(self).errs().len() as int) == old(self).errs(),
            forall|f: nat|
                f >= 6 * old(self).toks().len() + 9 ==> sp_expression_rest(
                    left@,
                    old(self).toks(),
                    precedence,
                    f,
                ) == (
                    opt_expr_view(r),
                    final(self).toks(),
                    final(self).errs().skip(old(self).errs().len() as int),
                ),
        decreases old(self).toks().len(), 3int,
    {
        let ghost ts0 = self.toks();
        let ghost e0 = self.errs();
        let ghost lv = left@;
        proof {
            self.lemma_heads();
        }
        let pkind = self.peek_token.kind;
        let pprec = self.peek_precedence();
        if pkind == Kind::SemiColon || precedence >= pprec {
            proof {
                assert forall|f: nat| f >= 6 * ts0.len() + 9 implies sp_expression_rest(
                    lv,
                    ts0,
                    precedence,
                    f,
                ) == (Some(lv), ts0, self.errs().skip(e0.len() as int)) by {
                    assert(self.errs().skip(e0.len() as int) =~= Seq::<Seq<char>>::empty());
                }
            }
            return Some(left);
        }
        if pkind == Kind::Plus || pkind == Kind::Minus || pkind == Kind::Asterix || pkind
            == Kind::Slash || pkind == Kind::Eq || pkind == Kind::Ne || pkind == Kind::Gt || pkind
            == Kind::Lt {
            self.next_token();
            let ri = self.parse_infix(left);
            let ghost ts1 = self.toks();
            let ghost e1 = self.errs();
            match ri {
                None => {
                    proof {
                        assert forall|f: nat| f >= 6 * ts0.len() + 9 implies sp_expression_rest(
                            lv,
                            ts0,
                            precedence,
                            f,
                        ) == (None::<ExprV>, ts1, e1.skip(e0.len() as int)) by {
                            let fm = (f - 1) as nat;
                            assert(sp_infix(lv, adv(ts0), fm) == (
                                None::<ExprV>,
                                ts1,
                                e1.skip(e0.len() as int),
                            ));
                        }
                    }
                    None
                },
                Some(l2) => {
                    let ghost l2v = l2@;
                    let r = self.parse_expression_rest(l2, precedence);
                    let ghost ts2 = self.toks();
                    let ghost e2 = self.errs();
                    proof {
                        lemma_errs_chain(e0, e1, e2);
                        assert forall|f: nat| f >= 6 * ts0.len() + 9 implies sp_expression_rest(
                            lv,
                            ts0,
                            precedence,
                            f,
                        ) == (opt_expr_view(r), ts2, e2.skip(e0.len() as int)) by {
                            let fm = (f - 1) as nat;
                            assert(sp_infix(lv, adv(ts0), fm) == (
                                Some(l2v),
                                ts1,
                                e1.skip(e0.len() as int),
                            ));
                            assert(sp_expression_rest(l2v, ts1, precedence, fm) == (
                                opt_expr_view(r),
                                ts2,
                                e2.skip(e1.len() as int),
                            ));
                        }
                    }
                    r
                },
            }
        } else if pkind == Kind::LParen {
            self.next_token();
            let rc = self.parse_call_expression(left);
            let ghost ts1 = self.toks();
            let ghost e1 = self.errs();
            match rc {
                None => {
                    proof {
                        assert forall|f: nat| f >= 6 * ts0.len() + 9 implies sp_expression_rest(
                            lv,
                            ts0,
                            precedence,
                            f,
                        ) == (None::<ExprV>, ts1, e1.skip(e0.len() as int)) by {
                            let fm = (f - 1) as nat;
                            assert(sp_call(lv, adv(ts0), fm) == (
                                None::<ExprV>,
                                ts1,
                                e1.skip(e0.len() as int),
                            ));
                        }
                    }
                    None
                },
                Some(l2) => {
                    let ghost l2v = l2@;
                    let r = self.parse_expression_rest(l2, precedence);
                    let ghost ts2 = self.toks();
                    let ghost e2 = self.errs();
                    proof {
                        lemma_errs_chain(e0, e1, e2);
                        assert forall|f: nat| f >= 6 * ts0.len() + 9 implies sp_expression_rest(
                            lv,
                            ts0,
                            precedence,
                            f,
                        ) == (opt_expr_view(r), ts2, e2.skip(e0.len() as int)) by {
                            let fm = (f - 1) as nat;
                            assert(sp_call(lv, adv(ts0), fm) == (
                                Some(l2v),
                                ts1,
                                e1.skip(e0.len() as int),
                            ));
                            assert(sp_expression_rest(l2v, ts1, precedence, fm) == (
                                opt_expr_view(r),
                                ts2,
                                e2.skip(e1.len() as int),
                            ));
                        }
                    }
                    r
                },
            }
        } else {
            proof {
                assert forall|f: nat| f >= 6 * ts0.len() + 9 implies sp_expression_rest(
                    lv,
                    ts0,
                    precedence,
                    f,
                ) == (Some(lv), ts0, self.errs().skip(e0.len() as int)) by {
                    assert(self.errs().skip(e0.len() as int) =~= Seq::<Seq<char>>::empty());
                }
            }
            Some(left)
        }
    }

    /// A prefix operator: the operator's literal applied to the expression
    /// parsed after it at prefix binding power.
    fn parse_prefix(&mut self) -> (r: Option<Expression>)
        requires
            old(self).wf(),
            cur(old(self).toks()).kind == Kind::Bang || cur(old(self).toks()).kind == Kind::Minus,
        ensures
            final(self).wf(),
            final(self).toks().len() <= old(self).toks().len(),
            old(self).errs().len() <= final(self).errs().len(),
            final(self).errs().subrange(0, old(self).errs().len() as int) == old(self).errs(),
            forall|f: nat|
                f >= 6 * old(self).toks().len() + 8 ==> sp_prefix(old(self).toks(), f) == (
                    opt_expr_view(r),
                    final(self).toks(),
                    final(self).errs().skip(old(self).errs().len() as int),
                ),
        decreases old(self).toks().len(), 2int,
    {
        let ghost ts0 = self.toks();
        let ghost e0 = self.errs();
        proof {
            self.lemma_heads();
        }
        let operator = self.current_token.literal.clone();
        self.next_token();
        let rr = self.parse_expression(PREFIX);
        let ghost ts2 = self.toks();
        let ghost e2 = self.errs();
        let ghost rv = opt_expr_view(rr);
        match rr {
            Some(right) => {
                let result = Expression::Prefix { operator, right: Box::new(right) };
                proof {
                    assert forall|f: nat| f >= 6 * ts0.len() + 8 implies sp_prefix(ts0, f) == (
                        Some(result@),
                        ts2,
                        e2.skip(e0.len() as int),
                    ) by {
                        let fm = (f - 1) as nat;
                        assert(sp_expression(adv(ts0), PREFIX, fm) == (
                            rv,
                            ts2,
                            e2.skip(e0.len() as int),
                        ));
                    }
                }
                Some(result)
            },
            None => {
                proof {
                    assert forall|f: nat| f >= 6 * ts0.len() + 8 implies sp_prefix(ts0, f) == (
                        None::<ExprV>,
                        ts2,
                        e2.skip(e0.len() as int),
                    ) by {
                        let fm = (f - 1) as nat;
                        assert(sp_expression(adv(ts0), PREFIX, fm) == (
                            rv,
                            ts2,
                            e2.skip(e0.len() as int),
                        ));
                    }
                }
                None
            },
        }
    }

    /// An infix operator: combines the expression built so far with the
    /// right-hand side parsed at the operator's own binding power.
    fn parse_infix(&mut self, left: Expression) -> (r: Option<Expression>)
        requires
            old(self).wf(),
            is_infix_op(cur(old(self).toks()).kind),
        ensures
            final(self).wf(),
            final(self).toks().len() <= old(self).toks().len(),
            old(self).errs().len() <= final(self).errs().len(),
            final(self).errs().subrange(0, old(self).errs().len() as int) == old(self).errs(),
            forall|f: nat|
                f >= 6 * old(self).toks().len() + 9 ==> sp_infix(left@, old(self).toks(), f) == (
                    opt_expr_view(r),
                    final(self).toks(),
                    final(self).errs().skip(old(self).errs().len() as int),
                ),
        decreases old(self).toks().len(), 2int,
    {
        let ghost ts0 = self.toks();
        let ghost e0 = self.errs();
        let ghost lv = left@;
        proof {
            self.lemma_heads();
        }
        let operator = self.current_token.literal.clone();
        let prec = self.current_precedence();
        self.next_token();
        let rr = self.parse_expression(prec);
        let ghost ts2 = self.toks();
        let ghost e2 = self.errs();
        let ghost rv = opt_expr_view(rr);
        match rr {
            Some(right) => {
                let result = Expression::Infix {
                    left: Box::new(left),
                    operator,
                    right: Box::new(right),
                };
                proof {
                    assert forall|f: nat| f >= 6 * ts0.len() + 9 implies sp_infix(lv, ts0, f) == (
                        Some(result@),
                        ts2,
                        e2.skip(e0.len() as int),
                    ) by {
                        let fm = (f - 1) as nat;
                        assert(sp_expression(adv(ts0), prec_of(cur(ts0).kind), fm) == (
                            rv,
                            ts2,
                            e2.skip(e0.len() as int),
                        ));
                    }
                }
                Some(result)
            },
            None => {
                proof {
                    assert forall|f: nat| f >= 6 * ts0.len() + 9 implies sp_infix(lv, ts0, f) == (
                        None::<ExprV>,
                        ts2,
                        e2.skip(e0.len() as int),
                    ) by {
                        let fm = (f - 1) as nat;
                        assert(sp_expression(adv(ts0), prec_of(cur(ts0).kind), fm) == (
                            rv,
                            ts2,
                            e2.skip(e0.len() as int),
                        ));
                    }
                }
                None
            },
        }
    }

    /// A parenthesized expression: contributes its inner expression and
    /// requires the closing parenthesis.
    fn parse_grouped_expression(&mut self) -> (r: Option<Expression>)
        requires
            old(self).wf(),
            cur(old(self).toks()).kind == Kind::LParen,
        ensures
            final(self).wf(),
            final(self).toks().len() <= old(self).toks().len(),
            old(self).errs().len() <= final(self).errs().len(),
            final(self).errs().subrange(0, old(self).errs().len() as int) == old(self).errs(),
            forall|f: nat|
                f >= 6 * old(self).toks().len() + 8 ==> sp_grouped(old(self).toks(), f) == (
                    opt_expr_view(r),
                    final(self).toks(),
                    final(self).errs().skip(old(self).errs().len() as int),
                ),
        decreases old(self).toks().len(), 2int,
    {
        let ghost ts0 = self.toks();
        let ghost e0 = self.errs();
        proof {
            self.lemma_heads();
        }
        self.next_token();
        let e = self.parse_expression(LOWEST);
        let ghost ts1 = self.toks();
        let ghost e1 = self.errs();
        let ghost ev = opt_expr_view(e);
        let ok = self.expect_peek(Kind::RParen);
        let ghost ts2 = self.toks();
        let ghost e2 = self.errs();
        if ok {
            proof {
                assert forall|f: nat| f >= 6 * ts0.len() + 8 implies sp_grouped(ts0, f) == (
                    ev,
                    ts2,
                    e2.skip(e0.len() as int),
                ) by {
                    let fm = (f - 1) as nat;
                    assert(sp_expression(adv(ts0), LOWEST, fm) == (
                        ev,
                        ts1,
                        e1.skip(e0.len() as int),
                    ));
                }
            }
            e
        } else {
            proof {
                assert forall|f: nat| f >= 6 * ts0.len() + 8 implies sp_grouped(ts0, f) == (
                    None::<ExprV>,
                    ts2,
                    e2.skip(e0.len() as int),
                ) by {
                    let fm = (f - 1) as nat;
                    assert(sp_expression(adv(ts0), LOWEST, fm) == (
                        ev,
                        ts1,
                        e1.skip(e0.len() as int),
                    ));
                    assert(e2.skip(e0.len() as int) =~= e1.skip(e0.len() as int).push(
                        peek_error_msg(Kind::RParen, pk(ts1).kind),
                    ));
                }
            }
            None
        }
    }

    /// A call of the expression built so far on an argument list.
    fn parse_call_expression(&mut self, function: Expression) -> (r: Option<Expression>)
        requires
            old(self).wf(),
            cur(old(self).toks()).kind == Kind::LParen,
        ensures
            final(self).wf(),
            final(self).toks().len() <= old(self).toks().len(),
            old(self).errs().len() <= final(self).errs().len(),
            final(self).errs().subrange(0, old(self).errs().len() as int) == old(self).errs(),
            forall|f: nat|
                f >= 6 * old(self).toks().len() + 9 ==> sp_call(function@, old(self).toks(), f)
                    == (
                    opt_expr_view(r),
                    final(self).toks(),
                    final(self).errs().skip(old(self).errs().len() as int),
                ),
        decreases old(self).toks().len(), 2int,
    {
        let ghost ts0 = self.toks();
        let ghost e0 = self.errs();
        let ghost fv = function@;
        let args_opt = self.parse_call_arguments();
        let ghost ts1 = self.toks();
        let ghost e1 = self.errs();
        let ghost aov = opt_exprs_view(args_opt);
        match args_opt {
            Some(arguments) => {
                let result = Expression::Call { function: Box::new(function), arguments };
                proof {
                    assert forall|f: nat| f >= 6 * ts0.len() + 9 implies sp_call(fv, ts0, f) == (
                        Some(result@),
                        ts1,
                        e1.skip(e0.len() as int),
                    ) by {
                        let fm = (f - 1) as nat;
                        assert(sp_call_args(ts0, fm) == (aov, ts1, e1.skip(e0.len() as int)));
                    }
                }
                Some(result)
            },
            None => {
                proof {
                    assert forall|f: nat| f >= 6 * ts0.len() + 9 implies sp_call(fv, ts0, f) == (
                        None::<ExprV>,
                        ts1,
                        e1.skip(e0.len() as int),
                    ) by {
                        let fm = (f - 1) as nat;
                        assert(sp_call_args(ts0, fm) == (aov, ts1, e1.skip(e0.len() as int)));
                    }
                }
                None
            },
        }
    }

    /// The comma-separated argument list of a call; an empty list is
    /// permitted and the closing parenthesis is required.
    fn parse_call_arguments(&mut self) -> (r: Option<Vec<Expression>>)
        requires
            old(self).wf(),
            cur(old(self).toks()).kind == Kind::LParen,
        ensures
            final(self).wf(),
            final(self).toks().len() <= old(self).toks().len(),
            old(self).errs().len() <= final(self).errs().len(),
            final(self).errs().subrange(0, old(self).errs().len() as int) == old(self).errs(),
            forall|f: nat|
                f >= 6 * old(self).toks().len() + 8 ==> sp_call_args(old(self).toks(), f) == (
                    opt_exprs_view(r),
                    final(self).toks(),
                    final(self).errs().skip(old(self).errs().len() as int),
                ),
        decreases old(self).toks().len(), 1int,
    {
        let ghost ts0 = self.toks();
        let ghost e0 = self.errs();
        proof {
            self.lemma_heads();
        }
        if self.peek_token.kind == Kind::RParen {
            self.next_token();
            let empty_args: Vec<Expression> = Vec::new();
            proof {
                assert(exprs_view(empty_args@) =~= Seq::<ExprV>::empty());
                assert forall|f: nat| f >= 6 * ts0.len() + 8 implies sp_call_args(ts0, f) == (
                    Some(exprs_view(empty_args@)),
                    self.toks(),
                    self.errs().skip(e0.len() as int),
                ) by {
                    assert(self.errs().skip(e0.len() as int) =~= Seq::<Seq<char>>::empty());
                }
            }
            return Some(empty_args);
        }
        self.next_token();
        let first = self.parse_expression(LOWEST);
        let ghost ts1 = self.toks();
        let ghost e1 = self.errs();
        let ghost fov = opt_expr_view(first);
        match first {
            None => {
                proof {
                    assert forall|f: nat| f >= 6 * ts0.len() + 8 implies sp_call_args(ts0, f) == (
                        None::<Seq<ExprV>>,
                        ts1,
                        e1.skip(e0.len() as int),
                    ) by {
                        let fm = (f - 1) as nat;
                        assert(sp_expression(adv(ts0), LOWEST, fm) == (
                            fov,
                            ts1,
                            e1.skip(e0.len() as int),
                        ));
                    }
                }
                None
            },
            Some(x) => {
                let ghost xv = x@;
                let mut args: Vec<Expression> = Vec::new();
                args.push(x);
                proof {
                    assert(exprs_view(args@) =~= seq![xv]);
                }
                let r = self.parse_call_arguments_rest(args);
                let ghost ts2 = self.toks();
                let ghost e2 = self.errs();
                proof {
                    lemma_errs_chain(e0, e1, e2);
                    assert forall|f: nat| f >= 6 * ts0.len() + 8 implies sp_call_args(ts0, f) == (
                        opt_exprs_view(r),
                        ts2,
                        e2.skip(e0.len() as int),
                    ) by {
                        let fm = (f - 1) as nat;
                        assert(sp_expression(adv(ts0), LOWEST, fm) == (
                            Some(xv),
                            ts1,
                            e1.skip(e0.len() as int),
                        ));
                        assert(sp_call_args_rest(seq![xv], ts1, fm) == (
                            opt_exprs_view(r),
                            ts2,
                            e2.skip(e1.len() as int),
                        ));
                    }
                }
                r
            },
        }
    }

    /// The arguments after the first: another expression for each comma,
    /// then the required closing parenthesis.
    fn parse_call_arguments_rest(&mut self, args: Vec<Expression>) -> (r: Option<Vec<Expression>>)
        requires
            old(self).wf(),
        ensures
            final(self).wf(),
            final(self).toks().len() <= old(self).toks().len(),
            old(self).errs().len() <= final(self).errs().len(),
            final(self).errs().subrange(0, old(self).errs().len() as int) == old(self).errs(),
            forall|f: nat|
                f >= 6 * old(self).toks().len() + 8 ==> sp_call_args_rest(
                    exprs_view(args@),
                    old(self).toks(),
                    f,
                ) == (
                    opt_exprs_view(r),
                    final(self).toks(),
                    final(self).errs().skip(old(self).errs().len() as int),
                ),
        decreases old(self).toks().len(), 1int,
    {
        let ghost ts0 = self.toks();
        let ghost e0 = self.errs();
        let ghost av = exprs_view(args@);
        proof {
            self.lemma_heads();
        }
        if self.peek_token.kind == Kind::Comma {
            self.next_token();
            self.next_token();
            let e = self.parse_expression(LOWEST);
            let ghost ts1 = self.toks();
            let ghost e1 = self.errs();
            let ghost ev = opt_expr_view(e);
            match e {
                None => {
                    proof {
                        assert forall|f: nat| f >= 6 * ts0.len() + 8 implies sp_call_args_rest(
                            av,
                            ts0,
                            f,
                        ) == (None::<Seq<ExprV>>, ts1, e1.skip(e0.len() as int)) by {
                            let fm = (f - 1) as nat;
                            assert(sp_expression(adv(adv(ts0)), LOWEST, fm) == (
                                ev,
                                ts1,
                                e1.skip(e0.len() as int),
                            ));
                        }
                    }
                    None
                },
                Some(x) => {
                    let ghost xv = x@;
                    let mut args2 = args;
                    args2.push(x);
                    proof {
                        assert(exprs_view(args2@) =~= av.push(xv));
                    }
                    let r = self.parse_call_arguments_rest(args2);
                    let ghost ts2 = self.toks();
                    let ghost e2 = self.errs();
                    proof {
                        lemma_errs_chain(e0, e1, e2);
                        assert forall|f: nat| f >= 6 * ts0.len() + 8 implies sp_call_args_rest(
                            av,
                            ts0,
                            f,
                        ) == (opt_exprs_view(r), ts2, e2.skip(e0.len() as int)) by {
                            let fm = (f - 1) as nat;
                            assert(sp_expression(adv(adv(ts0)), LOWEST, fm) == (
                                Some(xv),
                                ts1,
                                e1.skip(e0.len() as int),
                            ));
                            assert(sp_call_args_rest(av.push(xv), ts1, fm) == (
                                opt_exprs_view(r),
                                ts2,
                                e2.skip(e1.len() as int),
                            ));
                        }
                    }
                    r
                },
            }
        } else {
            let ok = self.expect_peek(Kind::RParen);
            if ok {
                proof {
                    assert forall|f: nat| f >= 6 * ts0.len() + 8 implies sp_call_args_rest(
                        av,
                        ts0,
                        f,
                    ) == (Some(av), self.toks(), self.errs().skip(e0.len() as int)) by {
                        assert(self.errs().skip(e0.len() as int) =~= Seq::<Seq<char>>::empty());
                    }
                }
                Some(args)
            } else {
                proof {
                    assert forall|f: nat| f >= 6 * ts0.len() + 8 implies sp_call_args_rest(
                        av,
                        ts0,
                        f,
                    ) == (None::<Seq<ExprV>>, ts0, self.errs().skip(e0.len() as int)) by {
                        assert(self.errs().skip(e0.len() as int) =~= seq![
                            peek_error_msg(Kind::RParen, pk(ts0).kind),
                        ]);
                    }
                }
                None
            }
        }
    }

    /// An `if` expression: a parenthesized condition, a braced consequence,
    /// and optionally `else` with a braced alternative.
    #[verifier::rlimit(60)]
    fn parse_if_expression(&mut self) -> (r: Option<Expression>)
        requires
            old(self).wf(),
            cur(old(self).toks()).kind == Kind::If,
        ensures
            final(self).wf(),
            final(self).toks().len() <= old(self).toks().len(),
            old(self).errs().len() <= final(self).errs().len(),
            final(self).errs().subrange(0, old(self).errs().len() as int) == old(self).errs(),
            forall|f: nat|
                f >= 6 * old(self).toks().len() + 8 ==> sp_if(old(self).toks(), f) == (
                    opt_expr_view(r),
                    final(self).toks(),
                    final(self).errs().skip(old(self).errs().len() as int),
                ),
        decreases old(self).toks().len(), 2int,
    {
        let ghost ts0 = self.toks();
        let ghost e0 = self.errs();
        proof {
            self.lemma_heads();
        }
        let ok1 = self.expect_peek(Kind::LParen);
        if !ok1 {
            proof {
                assert forall|f: nat| f >= 6 * ts0.len() + 8 implies sp_if(ts0, f) == (
                    None::<ExprV>,
                    ts0,
                    self.errs().skip(e0.len() as int),
                ) by {
                    assert(self.errs().skip(e0.len() as int) =~= seq![
                        peek_error_msg(Kind::LParen, pk(ts0).kind),
                    ]);
                }
            }
            return None;
        }
        self.next_token();
        let cond_opt = self.parse_expression(LOWEST);
        let ghost ts1 = self.toks();
        let ghost e1 = self.errs();
        let ghost cov = opt_expr_view(cond_opt);
        let condition = match cond_opt {
            Some(c) => c,
            None => {
                proof {
                    assert forall|f: nat| f >= 6 * ts0.len() + 8 implies sp_if(ts0, f) == (
                        None::<ExprV>,
                        ts1,
                        e1.skip(e0.len() as int),
                    ) by {
                        let fm = (f - 1) as nat;
                        assert(sp_expression(adv(adv(ts0)), LOWEST, fm) == (
                            cov,
                            ts1,
                            e1.skip(e0.len() as int),
                        ));
                    }
                }
                return None;
            },
        };
        let ghost cv = condition@;
        let ok2 = self.expect_peek(Kind::RParen);
        if !ok2 {
            proof {
                assert forall|f: nat| f >= 6 * ts0.len() + 8 implies sp_if(ts0, f) == (
                    None::<ExprV>,
                    ts1,
                    self.errs().skip(e0.len() as int),
                ) by {
                    let fm = (f - 1) as nat;
                    assert(sp_expression(adv(adv(ts0)), LOWEST, fm) == (
                        Some(cv),
                        ts1,
                        e1.skip(e0.len() as int),
                    ));
                    assert(self.errs().skip(e0.len() as int) =~= e1.skip(e0.len() as int).push(
                        peek_error_msg(Kind::RParen, pk(ts1).kind),
                    ));
                }
            }
            return None;
        }
        let ok3 = self.expect_peek(Kind::LBrace);
        if !ok3 {
            proof {
                assert forall|f: nat| f >= 6 * ts0.len() + 8 implies sp_if(ts0, f) == (
                    None::<ExprV>,
                    adv(ts1),
                    self.errs().skip(e0.len() as int),
                ) by {
                    let fm = (f - 1) as nat;
                    assert(sp_expression(adv(adv(ts0)), LOWEST, fm) == (
                        Some(cv),
                        ts1,
                        e1.skip(e0.len() as int),
                    ));
                    assert(self.errs().skip(e0.len() as int) =~= e1.skip(e0.len() as int).push(
                        peek_error_msg(Kind::LBrace, pk(adv(ts1)).kind),
                    ));
                }
            }
            return None;
        }
        let consequence = self.parse_block_statement();
        let ghost ts2 = self.toks();
        let ghost e2 = self.errs();
        let ghost bv = consequence@;
        if self.peek_token.kind == Kind::Else {
            self.next_token();
            let ok4 = self.expect_peek(Kind::LBrace);
            if !ok4 {
                proof {
                    lemma_errs_chain(e0, e1, e2);
                    assert forall|f: nat| f >= 6 * ts0.len() + 8 implies sp_if(ts0, f) == (
                        None::<ExprV>,
                        adv(ts2),
                        self.errs().skip(e0.len() as int),
                    ) by {
                        let fm = (f - 1) as nat;
                        assert(sp_expression(adv(adv(ts0)), LOWEST, fm) == (
                            Some(cv),
                            ts1,
                            e1.skip(e0.len() as int),
                        ));
                        assert(sp_block(adv(adv(ts1)), fm) == (
                            bv,
                            ts2,
                            e2.skip(e1.len() as int),
                        ));
                        assert(self.errs().skip(e0.len() as int) =~= e1.skip(e0.len() as int)
                            + e2.skip(e1.len() as int) + seq![
                            peek_error_msg(Kind::LBrace, pk(adv(ts2)).kind),
                        ]);
                    }
                }
                return None;
            }
            let alternative = self.parse_block_statement();
            let ghost ts3 = self.toks();
            let ghost e3 = self.errs();
            let ghost av = alternative@;
            let result = Expression::If {
                condition: Box::new(condition),
                consequence: Box::new(consequence),
                alternative: Some(Box::new(alternative)),
            };
            proof {
                lemma_errs_chain(e0, e1, e2);
                lemma_errs_chain(e0, e2, e3);
                assert forall|f: nat| f >= 6 * ts0.len() + 8 implies sp_if(ts0, f) == (
                    Some(result@),
                    ts3,
                    e3.skip(e0.len() as int),
                ) by {
                    let fm = (f - 1) as nat;
                    assert(sp_expression(adv(adv(ts0)), LOWEST, fm) == (
                        Some(cv),
                        ts1,
                        e1.skip(e0.len() as int),
                    ));
                    assert(sp_block(adv(adv(ts1)), fm) == (bv, ts2, e2.skip(e1.len() as int)));
                    assert(sp_block(adv(adv(ts2)), fm) == (av, ts3, e3.skip(e2.len() as int)));
                    assert(e3.skip(e0.len() as int) =~= e1.skip(e0.len() as int) + e2.skip(
                        e1.len() as int,
                    ) + e3.skip(e2.len() as int));
                }
            }
            return Some(result);
        }
        let result = Expression::If {
            condition: Box::new(condition),
            consequence: Box::new(consequence),
            alternative: None,
        };
        proof {
            lemma_errs_chain(e0, e1, e2);
            assert forall|f: nat| f >= 6 * ts0.len() + 8 implies sp_if(ts0, f) == (
                Some(result@),
                ts2,
                e2.skip(e0.len() as int),
            ) by {
                let fm = (f - 1) as nat;
                assert(sp_expression(adv(adv(ts0)), LOWEST, fm) == (
                    Some(cv),
                    ts1,
                    e1.skip(e0.len() as int),
                ));
                assert(sp_block(adv(adv(ts1)), fm) == (bv, ts2, e2.skip(e1.len() as int)));
            }
        }
        Some(result)
    }

    /// A function literal: a parenthesized parameter list and a braced
    /// body.
    fn parse_function_literal(&mut self) -> (r: Option<Expression>)
        requires
            old(self).wf(),
            cur(old(self).toks()).kind == Kind::Function,
        ensures
            final(self).wf(),
            final(self).toks().len() <= old(self).toks().len(),
            old(self).errs().len() <= final(self).errs().len(),
            final(self).errs().subrange(0, old(self).errs().len() as int) == old(self).errs(),
            forall|f: nat|
                f >= 6 * old(self).toks().len() + 8 ==> sp_function(old(self).toks(), f) == (
                    opt_expr_view(r),
                    final(self).toks(),
                    final(self).errs().skip(old(self).errs().len() as int),
                ),
        decreases old(self).toks().len(), 2int,
    {
        let ghost ts0 = self.toks();
        let ghost e0 = self.errs();
        proof {
            self.lemma_heads();
        }
        let ok1 = self.expect_peek(Kind::LParen);
        if !ok1 {
            proof {
                assert forall|f: nat| f >= 6 * ts0.len() + 8 implies sp_function(ts0, f) == (
                    None::<ExprV>,
                    ts0,
                    self.errs().skip(e0.len() as int),
                ) by {
                    assert(self.errs().skip(e0.len() as int) =~= seq![
                        peek_error_msg(Kind::LParen, pk(ts0).kind),
                    ]);
                }
            }
            return None;
        }
        let params_opt = self.parse_function_parameters();
        let ghost ts1 = self.toks();
        let ghost e1 = self.errs();
        let ghost pov = opt_idents_view(params_opt);
        let parameters = match params_opt {
            Some(ps) => ps,
            None => {
                proof {
                    assert forall|f: nat| f >= 6 * ts0.len() + 8 implies sp_function(ts0, f) == (
                        None::<ExprV>,
                        ts1,
                        e1.skip(e0.len() as int),
                    ) by {
                        let fm = (f - 1) as nat;
                        assert(sp_params(adv(ts0), fm) == (pov, ts1, e1.skip(e0.len() as int)));
                    }
                }
                return None;
            },
        };
        let ghost pv = idents_view(parameters@);
        let ok2 = self.expect_peek(Kind::LBrace);
        if !ok2 {
            proof {
                assert forall|f: nat| f >= 6 * ts0.len() + 8 implies sp_function(ts0, f) == (
                    None::<ExprV>,
                    ts1,
                    self.errs().skip(e0.len() as int),
                ) by {
                    let fm = (f - 1) as nat;
                    assert(sp_params(adv(ts0), fm) == (Some(pv), ts1, e1.skip(e0.len() as int)));
                    assert(self.errs().skip(e0.len() as int) =~= e1.skip(e0.len() as int).push(
                        peek_error_msg(Kind::LBrace, pk(ts1).kind),
                    ));
                }
            }
            return None;
        }
        let body = self.parse_block_statement();
        let ghost ts2 = self.toks();
        let ghost e2 = self.errs();
        let ghost bv = body@;
        let result = Expression::FunctionLiteral { parameters, body };
        proof {
            lemma_errs_chain(e0, e1, e2);
            assert forall|f: nat| f >= 6 * ts0.len() + 8 implies sp_function(ts0, f) == (
                Some(result@),
                ts2,
                e2.skip(e0.len() as int),
            ) by {
                let fm = (f - 1) as nat;
                assert(sp_params(adv(ts0), fm) == (Some(pv), ts1, e1.skip(e0.len() as int)));
                assert(sp_block(adv(ts1), fm) == (bv, ts2, e2.skip(e1.len() as int)));
            }
        }
        Some(result)
    }

    /// The comma-separated list of bare parameter names; an empty list is
    /// permitted and the closing parenthesis is required.
    fn parse_function_parameters(&mut self) -> (r: Option<Vec<Identifer>>)
        requires
            old(self).wf(),
            cur(old(self).toks()).kind == Kind::LParen,
        ensures
            final(self).wf(),
            final(self).toks().len() <= old(self).toks().len(),
            old(self).errs().len() <= final(self).errs().len(),
            final(self).errs().subrange(0, old(self).errs().len() as int) == old(self).errs(),
            forall|f: nat|
                f >= 6 * old(self).toks().len() + 9 ==> sp_params(old(self).toks(), f) == (
                    opt_idents_view(r),
                    final(self).toks(),
                    final(self).errs().skip(old(self).errs().len() as int),
                ),
        decreases old(self).toks().len(), 1int,
    {
        let ghost ts0 = self.toks();
        let ghost e0 = self.errs();
        proof {
            self.lemma_heads();
        }
        if self.peek_token.kind == Kind::RParen {
            self.next_token();
            let empty_params: Vec<Identifer> = Vec::new();
            proof {
                assert(idents_view(empty_params@) =~= Seq::<IdentV>::empty());
                assert forall|f: nat| f >= 6 * ts0.len() + 9 implies sp_params(ts0, f) == (
                    Some(idents_view(empty_params@)),
                    self.toks(),
                    self.errs().skip(e0.len() as int),
                ) by {
                    assert(self.errs().skip(e0.len() as int) =~= Seq::<Seq<char>>::empty());
                }
            }
            return Some(empty_params);
        }
        self.next_token();
        let identifier = Identifer {
            token: self.current_token.clone(),
            value: self.current_token.literal.clone(),
        };
        let mut identifiers: Vec<Identifer> = Vec::new();
        identifiers.push(identifier);
        proof {
            self.lemma_heads();
            assert(self.current_token@ == pk(ts0));
            assert(idents_view(identifiers@) =~= seq![
                IdentV { token: pk(ts0), text: pk(ts0).text },
            ]);
        }
        let r = self.parse_function_parameters_rest(identifiers);
        let ghost ts2 = self.toks();
        let ghost e2 = self.errs();
        proof {
            assert forall|f: nat| f >= 6 * ts0.len() + 9 implies sp_params(ts0, f) == (
                opt_idents_view(r),
                ts2,
                e2.skip(e0.len() as int),
            ) by {
                let fm = (f - 1) as nat;
                assert(sp_params_rest(
                    seq![IdentV { token: pk(ts0), text: pk(ts0).text }],
                    adv(ts0),
                    fm,
                ) == (opt_idents_view(r), ts2, e2.skip(e0.len() as int)));
            }
        }
        r
    }

    /// The parameters after the first: another name for each comma, then
    /// the required closing parenthesis.
    fn parse_function_parameters_rest(&mut self, identifiers: Vec<Identifer>) -> (r: Option<
        Vec<Identifer>,
    >)
        requires
            old(self).wf(),
        ensures
            final(self).wf(),
            final(self).toks().len() <= old(self).toks().len(),
            old(self).errs().len() <= final(self).errs().len(),
            final(self).errs().subrange(0, old(self).errs().len() as int) == old(self).errs(),
            forall|f: nat|
                f >= 6 * old(self).toks().len() + 9 ==> sp_params_rest(
                    idents_view(identifiers@),
                    old(self).toks(),
                    f,
                ) == (
                    opt_idents_view(r),
                    final(self).toks(),
                    final(self).errs().skip(old(self).errs().len() as int),
                ),
        decreases old(self).toks().len(), 1int,
    {
        let ghost ts0 = self.toks();
        let ghost e0 = self.errs();
        let ghost av = idents_view(identifiers@);
        proof {
            self.lemma_heads();
        }
        if self.peek_token.kind == Kind::Comma {
            self.next_token();
            self.next_token();
            let identifier = Identifer {
                token: self.current_token.clone(),
                value: self.current_token.literal.clone(),
            };
            let mut identifiers2 = identifiers;
            identifiers2.push(identifier);
            proof {
                self.lemma_heads();
                assert(self.current_token@ == pk(adv(ts0)));
                assert(idents_view(identifiers2@) =~= av.push(
                    IdentV { token: pk(adv(ts0)), text: pk(adv(ts0)).text },
                ));
            }
            let r = self.parse_function_parameters_rest(identifiers2);
            let ghost ts2 = self.toks();
            let ghost e2 = self.errs();
            proof {
                assert forall|f: nat| f >= 6 * ts0.len() + 9 implies sp_params_rest(
                    av,
                    ts0,
                    f,
                ) == (opt_idents_view(r), ts2, e2.skip(e0.len() as int)) by {
                    let fm = (f - 1) as nat;
                    assert(sp_params_rest(
                        av.push(IdentV { token: pk(adv(ts0)), text: pk(adv(ts0)).text }),
                        adv(adv(ts0)),
                        fm,
                    ) == (opt_idents_view(r), ts2, e2.skip(e0.len() as int)));
                }
            }
            r
        } else {
            let ok = self.expect_peek(Kind::RParen);
            if ok {
                proof {
                    assert forall|f: nat| f >= 6 * ts0.len() + 9 implies sp_params_rest(
                        av,
                        ts0,
                        f,
                    ) == (Some(av), self.toks(), self.errs().skip(e0.len() as int)) by {
                        assert(self.errs().skip(e0.len() as int) =~= Seq::<Seq<char>>::empty());
                    }
                }
                Some(identifiers)
            } else {
                proof {
                    assert forall|f: nat| f >= 6 * ts0.len() + 9 implies sp_params_rest(
                        av,
                        ts0,
                        f,
                    ) == (None::<Seq<IdentV>>, ts0, self.errs().skip(e0.len() as int)) by {
                        assert(self.errs().skip(e0.len() as int) =~= seq![
                            peek_error_msg(Kind::RParen, pk(ts0).kind),
                        ]);
                    }
                }
                None
            }
        }
    }

    /// A block: consumes the opening brace and parses statements until a
    /// closing brace or the end of the input, which is left as the cursor.
    fn parse_block_statement(&mut self) -> (r: BlockStatement)
        requires
            old(self).wf(),
        ensures
            final(self).wf(),
            final(self).toks().len() <= old(self).toks().len(),
            old(self).errs().len() <= final(self).errs().len(),
            final(self).errs().subrange(0, old(self).errs().len() as int) == old(self).errs(),
            forall|f: nat|
                f >= 6 * old(self).toks().len() + 13 ==> sp_block(old(self).toks(), f) == (
                    r@,
                    final(self).toks(),
                    final(self).errs().skip(old(self).errs().len() as int),
                ),
        decreases old(self).toks().len(), 8int,
    {
        let ghost ts0 = self.toks();
        let ghost e0 = self.errs();
        self.next_token();
        let statements = self.parse_block_rest();
        let ghost ts1 = self.toks();
        let ghost e1 = self.errs();
        let ghost sv = stmts_view(statements@);
        let result = BlockStatement { statements };
        proof {
            assert forall|f: nat| f >= 6 * ts0.len() + 13 implies sp_block(ts0, f) == (
                result@,
                ts1,
                e1.skip(e0.len() as int),
            ) by {
                let fm = (f - 1) as nat;
                assert(sp_block_rest(adv(ts0), fm) == (sv, ts1, e1.skip(e0.len() as int)));
            }
        }
        result
    }

    /// The statements of a block, parsed one after another; an aborted
    /// statement contributes nothing.
    fn parse_block_rest(&mut self) -> (r: Vec<Statement>)
        requires
            old(self).wf(),
        ensures
            final(self).wf(),
            final(self).toks().len() <= old(self).toks().len(),
            old(self).errs().len() <= final(self).errs().len(),
            final(self).errs().subrange(0, old(self).errs().len() as int) == old(self).errs(),
            forall|f: nat|
                f >= 6 * old(self).toks().len() + 12 ==> sp_block_rest(old(self).toks(), f) == (
                    stmts_view(r@),
                    final(self).toks(),
                    final(self).errs().skip(old(self).errs().len() as int),
                ),
        decreases old(self).toks().len(), 7int,
    {
        let ghost ts0 = self.toks();
        let ghost e0 = self.errs();
        proof {
            self.lemma_heads();
        }
        if self.current_token.kind == Kind::RBrace || self.current_token.kind == Kind::Eof {
            let empty_block: Vec<Statement> = Vec::new();
            proof {
                assert(stmts_view(empty_block@) =~= Seq::<StmtV>::empty());
                assert forall|f: nat| f >= 6 * ts0.len() + 12 implies sp_block_rest(ts0, f) == (
                    stmts_view(empty_block@),
                    ts0,
                    self.errs().skip(e0.len() as int),
                ) by {
                    assert(self.errs().skip(e0.len() as int) =~= Seq::<Seq<char>>::empty());
                }
            }
            return empty_block;
        }
        let s_opt = self.parse_statement();
        let ghost sov = opt_stmt_view(s_opt);
        let ghost tsa = self.toks();
        let ghost ea = self.errs();
        self.next_token();
        let rest = self.parse_block_rest();
        let ghost ts2 = self.toks();
        let ghost e2 = self.errs();
        let ghost rv = stmts_view(rest@);
        let mut result: Vec<Statement> = Vec::new();
        match s_opt {
            Some(s) => result.push(s),
            None => {},
        }
        let mut rest2 = rest;
        result.append(&mut rest2);
        proof {
            assert(stmts_view(result@) =~= (match sov {
                Some(s) => seq![s],
                None => Seq::<StmtV>::empty(),
            }) + rv);
            lemma_errs_chain(e0, ea, e2);
            assert forall|f: nat| f >= 6 * ts0.len() + 12 implies sp_block_rest(ts0, f) == (
                stmts_view(result@),
                ts2,
                e2.skip(e0.len() as int),
            ) by {
                let fm = (f - 1) as nat;
                assert(sp_statement(ts0, fm) == (sov, tsa, ea.skip(e0.len() as int)));
                assert(sp_block_rest(adv(tsa), fm) == (rv, ts2, e2.skip(ea.len() as int)));
            }
        }
        result
    }

    /// Parses one statement at the cursor: a `let` binding, a `return`, or
    /// an expression statement. A failed required-token check or an aborted
    /// expression yields nothing, with the reason recorded.
    fn parse_statement(&mut self) -> (r: Option<Statement>)
        requires
            old(self).wf(),
        ensures
            final(self).wf(),
            final(self).toks().len() <= old(self).toks().len(),
            old(self).errs().len() <= final(self).errs().len(),
            final(self).errs().subrange(0, old(self).errs().len() as int) == old(self).errs(),
            forall|f: nat|
                f >= 6 * old(self).toks().len() + 11 ==> sp_statement(old(self).toks(), f) == (
                    opt_stmt_view(r),
                    final(self).toks(),
                    final(self).errs().skip(old(self).errs().len() as int),
                ),
        decreases old(self).toks().len(), 6int,
    {
        proof {
            self.lemma_heads();
        }
        if self.current_token.kind == Kind::Let {
            self.parse_let_statement()
        } else if self.current_token.kind == Kind::Return {
            self.parse_return_statement()
        } else {
            self.parse_expression_statement()
        }
    }

    /// A `let` statement: requires a name and an assignment sign, then
    /// binds the name to the expression that follows.
    #[verifier::rlimit(100)]
    fn parse_let_statement(&mut self) -> (r: Option<Statement>)
        requires
            old(self).wf(),
            cur(old(self).toks()).kind == Kind::Let,
        ensures
            final(self).wf(),
            final(self).toks().len() <= old(self).toks().len(),
            old(self).errs().len() <= final(self).errs().len(),
            final(self).errs().subrange(0, old(self).errs().len() as int) == old(self).errs(),
            forall|f: nat|
                f >= 6 * old(self).toks().len() + 11 ==> sp_statement(old(self).toks(), f) == (
                    opt_stmt_view(r),
                    final(self).toks(),
                    final(self).errs().skip(old(self).errs().len() as int),
                ),
        decreases old(self).toks().len(), 5int,
    {
        let ghost ts0 = self.toks();
        let ghost e0 = self.errs();
        proof {
            self.lemma_heads();
        }
        let ok1 = self.expect_peek(Kind::Ident);
        if !ok1 {
            proof {
                assert(self.errs().skip(e0.len() as int) =~= seq![
                    peek_error_msg(Kind::Ident, pk(ts0).kind),
                ]);
                assert forall|f: nat| f >= 6 * ts0.len() + 11 implies sp_statement(ts0, f) == (
                    None::<StmtV>,
                    ts0,
                    self.errs().skip(e0.len() as int),
                ) by {}
            }
            return None;
        }
        let name = Identifer {
            token: self.current_token.clone(),
            value: self.current_token.literal.clone(),
        };
        let ghost nv = name@;
        proof {
            self.lemma_heads();
            assert(nv == (IdentV { token: pk(ts0), text: pk(ts0).text }));
        }
        let ok2 = self.expect_peek(Kind::Assign);
        if !ok2 {
            proof {
                assert(self.errs().skip(e0.len() as int) =~= seq![
                    peek_error_msg(Kind::Assign, pk(adv(ts0)).kind),
                ]);
                assert forall|f: nat| f >= 6 * ts0.len() + 11 implies sp_statement(ts0, f) == (
                    None::<StmtV>,
                    adv(ts0),
                    self.errs().skip(e0.len() as int),
                ) by {}
            }
            return None;
        }
        self.parse_let_value(name, Ghost(ts0))
    }

    /// The value side of a `let`, entered with the cursor on the
    /// assignment sign; the first ghost argument carries the tokens the
    /// whole statement started from.
    #[verifier::rlimit(100)]
    fn parse_let_value(&mut self, name: Identifer, ts0: Ghost<Seq<TokenV>>) -> (r: Option<
        Statement,
    >)
        requires
            old(self).wf(),
            cur(ts0@).kind == Kind::Let,
            pk(ts0@).kind == Kind::Ident,
            pk(adv(ts0@)).kind == Kind::Assign,
            old(self).toks() == adv(adv(ts0@)),
            name@ == (IdentV { token: pk(ts0@), text: pk(ts0@).text }),
        ensures
            final(self).wf(),
            final(self).toks().len() <= old(self).toks().len(),
            old(self).errs().len() <= final(self).errs().len(),
            final(self).errs().subrange(0, old(self).errs().len() as int) == old(self).errs(),
            forall|f: nat|
                f >= 6 * ts0@.len() + 11 ==> sp_statement(ts0@, f) == (
                    opt_stmt_view(r),
                    final(self).toks(),
                    final(self).errs().skip(old(self).errs().len() as int),
                ),
        decreases old(self).toks().len(), 5int,
    {
        let ghost e0 = self.errs();
        let ghost nv = name@;
        self.next_token();
        let value_opt = self.parse_expression(LOWEST);
        let ghost ts1 = self.toks();
        let ghost e1 = self.errs();
        let ghost vov = opt_expr_view(value_opt);
        match value_opt {
            None => {
                proof {
                    assert forall|f: nat| f >= 6 * ts0@.len() + 11 implies sp_statement(ts0@, f)
                        == (None::<StmtV>, ts1, e1.skip(e0.len() as int)) by {
                        let fm = (f - 1) as nat;
                        assert(sp_expression(adv(adv(adv(ts0@))), LOWEST, fm) == (
                            vov,
                            ts1,
                            e1.skip(e0.len() as int),
                        ));
                    }
                }
                None
            },
            Some(value) => {
                let ghost vv = value@;
                if self.peek_token.kind == Kind::SemiColon {
                    self.next_token();
                }
                let result = Statement::Let { name, value };
                proof {
                    assert forall|f: nat| f >= 6 * ts0@.len() + 11 implies sp_statement(ts0@, f)
                        == (Some(result@), self.toks(), self.errs().skip(e0.len() as int)) by {
                        let fm = (f - 1) as nat;
                        assert(sp_expression(adv(adv(adv(ts0@))), LOWEST, fm) == (
                            Some(vv),
                            ts1,
                            e1.skip(e0.len() as int),
                        ));
                    }
                }
                Some(result)
            },
        }
    }

    /// A `return` statement: yields the expression that follows.
    #[verifier::rlimit(60)]
    fn parse_return_statement(&mut self) -> (r: Option<Statement>)
        requires
            old(self).wf(),
            cur(old(self).toks()).kind == Kind::Return,
        ensures
            final(self).wf(),
            final(self).toks().len() <= old(self).toks().len(),
            old(self).errs().len() <= final(self).errs().len(),
            final(self).errs().subrange(0, old(self).errs().len() as int) == old(self).errs(),
            forall|f: nat|
                f >= 6 * old(self).toks().len() + 11 ==> sp_statement(old(self).toks(), f) == (
                    opt_stmt_view(r),
                    final(self).toks(),
                    final(self).errs().skip(old(self).errs().len() as int),
                ),
        decreases old(self).toks().len(), 5int,
    {
        let ghost ts0 = self.toks();
        let ghost e0 = self.errs();
        proof {
            self.lemma_heads();
        }
        self.next_token();
        let value_opt = self.parse_expression(LOWEST);
        let ghost ts1 = self.toks();
        let ghost e1 = self.errs();
        let ghost vov = opt_expr_view(value_opt);
        match value_opt {
            None => {
                proof {
                    assert forall|f: nat| f >= 6 * ts0.len() + 11 implies sp_statement(ts0, f)
                        == (None::<StmtV>, ts1, e1.skip(e0.len() as int)) by {
                        let fm = (f - 1) as nat;
                        assert(sp_expression(adv(ts0), LOWEST, fm) == (
                            vov,
                            ts1,
                            e1.skip(e0.len() as int),
                        ));
                    }
                }
                None
            },
            Some(value) => {
                let ghost vv = value@;
                if self.peek_token.kind == Kind::SemiColon {
                    self.next_token();
                }
                let result = Statement::Return(value);
                proof {
                    assert forall|f: nat| f >= 6 * ts0.len() + 11 implies sp_statement(ts0, f)
                        == (Some(result@), self.toks(), self.errs().skip(e0.len() as int)) by {
                        let fm = (f - 1) as nat;
                        assert(sp_expression(adv(ts0), LOWEST, fm) == (
                            Some(vv),
                            ts1,
                            e1.skip(e0.len() as int),
                        ));
                    }
                }
                Some(result)
            },
        }
    }

    /// An expression statement: the expression at the cursor, wrapped with
    /// the token it starts at.
    #[verifier::rlimit(60)]
    fn parse_expression_statement(&mut self) -> (r: Option<Statement>)
        requires
            old(self).wf(),
            cur(old(self).toks()).kind != Kind::Let,
            cur(old(self).toks()).kind != Kind::Return,
        ensures
            final(self).wf(),
            final(self).toks().len() <= old(self).toks().len(),
            old(self).errs().len() <= final(self).errs().len(),
            final(self).errs().subrange(0, old(self).errs().len() as int) == old(self).errs(),
            forall|f: nat|
                f >= 6 * old(self).toks().len() + 11 ==> sp_statement(old(self).toks(), f) == (
                    opt_stmt_view(r),
                    final(self).toks(),
                    final(self).errs().skip(old(self).errs().len() as int),
                ),
        decreases old(self).toks().len(), 5int,
    {
        let ghost ts0 = self.toks();
        let ghost e0 = self.errs();
        proof {
            self.lemma_heads();
        }
        let token0 = self.current_token.clone();
        let ghost t0v = token0@;
        let value_opt = self.parse_expression(LOWEST);
        let ghost ts1 = self.toks();
        let ghost e1 = self.errs();
        let ghost vov = opt_expr_view(value_opt);
        match value_opt {
            None => {
                proof {
                    assert forall|f: nat| f >= 6 * ts0.len() + 11 implies sp_statement(ts0, f)
                        == (None::<StmtV>, ts1, e1.skip(e0.len() as int)) by {
                        let fm = (f - 1) as nat;
                        assert(sp_expression(ts0, LOWEST, fm) == (
                            vov,
                            ts1,
                            e1.skip(e0.len() as int),
                        ));
                    }
                }
                None
            },
            Some(expression) => {
                let ghost vv = expression@;
                if self.peek_token.kind == Kind::SemiColon {
                    self.next_token();
                }
                let result = Statement::Expression { token: token0, expression };
                proof {
                    assert forall|f: nat| f >= 6 * ts0.len() + 11 implies sp_statement(ts0, f)
                        == (Some(result@), self.toks(), self.errs().skip(e0.len() as int)) by {
                        let fm = (f - 1) as nat;
                        assert(sp_expression(ts0, LOWEST, fm) == (
                            Some(vv),
                            ts1,
                            e1.skip(e0.len() as int),
                        ));
                    }
                }
                Some(result)
            },
        }
    }

    /// Parses the whole program: statements until the end of the input,
    /// with every error recorded along the way retrievable afterwards from
    /// `errors`.
    pub fn parse_program(&mut self) -> (r: Program)
        requires
            old(self).wf(),
        ensures
            final(self).wf(),
            final(self).toks().len() == 0,
            old(self).errs().len() <= final(self).errs().len(),
            final(self).errs().subrange(0, old(self).errs().len() as int) == old(self).errs(),
            forall|f: nat|
                f >= 6 * old(self).toks().len() + 13 ==> sp_program(old(self).toks(), f) == (
                    r@,
                    final(self).errs().skip(old(self).errs().len() as int),
                ),
    {
        let statements = self.parse_program_rest();
        let ghost sv = stmts_view(statements@);
        let result = Program { statements };
        proof {
            assert(result@ == sv);
        }
        result
    }

    /// The top-level statements, parsed one after another until the end of
    /// the input; an aborted statement contributes nothing.
    fn parse_program_rest(&mut self) -> (r: Vec<Statement>)
        requires
            old(self).wf(),
        ensures
            final(self).wf(),
            final(self).toks().len() == 0,
            old(self).errs().len() <= final(self).errs().len(),
            final(self).errs().subrange(0, old(self).errs().len() as int) == old(self).errs(),
            forall|f: nat|
                f >= 6 * old(self).toks().len() + 13 ==> sp_program(old(self).toks(), f) == (
                    stmts_view(r@),
                    final(self).errs().skip(old(self).errs().len() as int),
                ),
        decreases old(self).toks().len(), 7int,
    {
        let ghost ts0 = self.toks();
        let ghost e0 = self.errs();
        proof {
            self.lemma_heads();
        }
        if self.current_token.kind == Kind::Eof {
            let empty_program: Vec<Statement> = Vec::new();
            proof {
                assert(stmts_view(empty_program@) =~= Seq::<StmtV>::empty());
                assert forall|f: nat| f >= 6 * ts0.len() + 13 implies sp_program(ts0, f) == (
                    stmts_view(empty_program@),
                    self.errs().skip(e0.len() as int),
                ) by {
                    assert(self.errs().skip(e0.len() as int) =~= Seq::<Seq<char>>::empty());
                }
            }
            return empty_program;
        }
        let s_opt = self.parse_statement();
        let ghost sov = opt_stmt_view(s_opt);
        let ghost tsa = self.toks();
        let ghost ea = self.errs();
        self.next_token();
        let rest = self.parse_program_rest();
        let ghost e2 = self.errs();
        let ghost rv = stmts_view(rest@);
        let mut result: Vec<Statement> = Vec::new();
        match s_opt {
            Some(s) => result.push(s),
            None => {},
        }
        let mut rest2 = rest;
        result.append(&mut rest2);
        proof {
            assert(stmts_view(result@) =~= (match sov {
                Some(s) => seq![s],
                None => Seq::<StmtV>::empty(),
            }) + rv);
            lemma_errs_chain(e0, ea, e2);
            assert forall|f: nat| f >= 6 * ts0.len() + 13 implies sp_program(ts0, f) == (
                stmts_view(result@),
                e2.skip(e0.len() as int),
            ) by {
                let fm = (f - 1) as nat;
                assert(sp_statement(ts0, fm) == (sov, tsa, ea.skip(e0.len() as int)));
                assert(sp_program(adv(tsa), fm) == (rv, e2.skip(ea.len() as int)));
            }
        }
        result
    }
}

} // verus!
