//! Rendering as a syntactic fixed point: tokenizing and re-parsing the
//! rendered text of a single well-formed statement reproduces that
//! rendering exactly, with no errors recorded. The expression-level pieces
//! stand in `laws`; this module lifts them over `let`, `return` and
//! expression statements.

use vstd::prelude::*;

use crate::ast::{expr_text, stmt_text, stmts_text, stmts_text_from, ExprV, IdentV, StmtV};
use crate::laws::{
    expr_tokens, lemma_blank_token, lemma_expr_parse, lemma_expr_text_tokens,
    lemma_expr_tokens_shape, lemma_name_token, lemma_single_token, wf_expr, wf_name,
};
use crate::lexer::{ident_char, tokens_from};
use crate::parser::{adv, cur, eof_tok, pk, sp_expression, sp_program, sp_statement, LOWEST};
use crate::token::{spec_lookup_ident, Kind, TokenV};

verus! {

/// The statements whose rendering re-parses: a binding of a name to a
/// well-formed expression, a return of one, or one standing alone.
pub open spec fn wf_stmt(s: StmtV) -> bool {
    match s {
        StmtV::Let { name, value } => wf_name(name.text) && wf_expr(value),
        StmtV::Return(value) => wf_expr(value),
        StmtV::Expression { expr, .. } => wf_expr(expr),
    }
}

/// The token sequence of a well-formed statement's rendering.
pub open spec fn stmt_tokens(s: StmtV) -> Seq<TokenV> {
    match s {
        StmtV::Let { name, value } => seq![
            TokenV { kind: Kind::Let, text: "let"@ },
            TokenV { kind: Kind::Ident, text: name.text },
            TokenV { kind: Kind::Assign, text: "="@ },
        ] + expr_tokens(value) + seq![TokenV { kind: Kind::SemiColon, text: ";"@ }],
        StmtV::Return(value) => seq![TokenV { kind: Kind::Return, text: "return"@ }]
            + expr_tokens(value) + seq![TokenV { kind: Kind::SemiColon, text: ";"@ }],
        StmtV::Expression { expr, .. } => expr_tokens(expr),
    }
}

/// What re-parsing a rendered statement rebuilds: the same binding or
/// expression, with the token slots refilled from the rendered text.
pub open spec fn reparsed_stmt(s: StmtV) -> StmtV {
    match s {
        StmtV::Let { name, value } => StmtV::Let {
            name: IdentV {
                token: TokenV { kind: Kind::Ident, text: name.text },
                text: name.text,
            },
            value,
        },
        StmtV::Return(value) => StmtV::Return(value),
        StmtV::Expression { expr, .. } => StmtV::Expression { token: expr_tokens(expr)[0], expr },
    }
}

/// A rendered statement tokenizes to exactly its statement tokens.
#[verifier::rlimit(100)]
pub proof fn lemma_stmt_text_tokens(s: StmtV)
    requires
        wf_stmt(s),
    ensures
        tokens_from(stmt_text(s), 0) == stmt_tokens(s),
{
    reveal_strlit("let ");
    reveal_strlit("return ");
    reveal_strlit("let");
    reveal_strlit("return");
    reveal_strlit("fn");
    reveal_strlit("true");
    reveal_strlit("false");
    reveal_strlit("if");
    reveal_strlit("else");
    reveal_strlit(" = ");
    reveal_strlit("=");
    reveal_strlit(";");
    match s {
        StmtV::Let { name, value } => {
            let t6: Seq<char> = Seq::empty();
            assert(";"@ =~= seq![';'] + t6);
            lemma_single_token(';', t6);
            assert(tokens_from(t6, 0) =~= Seq::<TokenV>::empty());
            let t5 = seq![';'] + t6;
            assert(t5[0] == ';');
            lemma_expr_text_tokens(value, t5);
            let t4 = expr_text(value) + t5;
            lemma_blank_token(t4);
            let t3b = seq![' '] + t4;
            assert(t3b[0] == ' ');
            lemma_single_token('=', t3b);
            let t3 = seq!['='] + t3b;
            assert(t3[0] == '=');
            lemma_blank_token(t3);
            let t2 = seq![' '] + t3;
            assert(t2[0] == ' ');
            lemma_name_token(name.text, t2);
            let t1 = name.text + t2;
            assert(t1[0] == name.text[0] && ident_char(t1[0]));
            lemma_blank_token(t1);
            let t0b = seq![' '] + t1;
            assert("fn"@.len() == 2 && "let"@.len() == 3);
            assert(spec_lookup_ident("let"@) == Kind::Let);
            assert(forall|j: int| 0 <= j < "let"@.len() ==> ident_char(#[trigger] "let"@[j]));
            assert(t0b[0] == ' ');
            lemma_name_token("let"@, t0b);
            assert("let"@ + t0b =~= stmt_text(s));
            assert(seq!['='] =~= "="@);
            assert(seq![';'] =~= ";"@);
            assert(tokens_from(stmt_text(s), 0) =~= stmt_tokens(s));
        },
        StmtV::Return(value) => {
            let t3: Seq<char> = Seq::empty();
            assert(";"@ =~= seq![';'] + t3);
            lemma_single_token(';', t3);
            assert(tokens_from(t3, 0) =~= Seq::<TokenV>::empty());
            let t2 = seq![';'] + t3;
            assert(t2[0] == ';');
            lemma_expr_text_tokens(value, t2);
            let t1 = expr_text(value) + t2;
            lemma_blank_token(t1);
            let t0b = seq![' '] + t1;
            assert("fn"@.len() == 2 && "let"@.len() == 3 && "true"@.len() == 4 && "false"@.len()
                == 5 && "if"@.len() == 2 && "else"@.len() == 4 && "return"@.len() == 6);
            assert(spec_lookup_ident("return"@) == Kind::Return);
            assert(forall|j: int|
                0 <= j < "return"@.len() ==> ident_char(#[trigger] "return"@[j]));
            assert(t0b[0] == ' ');
            lemma_name_token("return"@, t0b);
            assert("return"@ + t0b =~= stmt_text(s));
            assert(seq![';'] =~= ";"@);
            assert(tokens_from(stmt_text(s), 0) =~= stmt_tokens(s));
        },
        StmtV::Expression { expr, .. } => {
            let t0: Seq<char> = Seq::empty();
            lemma_expr_text_tokens(expr, t0);
            assert(expr_text(expr) + t0 =~= stmt_text(s));
            assert(tokens_from(t0, 0) =~= Seq::<TokenV>::empty());
            assert(tokens_from(stmt_text(s), 0) =~= stmt_tokens(s));
        },
    }
}

/// Parsing the tokens of one rendered let statement yields it back.
#[verifier::rlimit(100)]
proof fn lemma_let_stmt_parse(s: StmtV, f: nat)
    requires
        wf_stmt(s),
        s is Let,
        f >= 6 * stmt_tokens(s).len() + 14,
    ensures
        sp_program(stmt_tokens(s), f) == (seq![reparsed_stmt(s)], Seq::<Seq<char>>::empty()),
{
    let ts = stmt_tokens(s);
    let semi = TokenV { kind: Kind::SemiColon, text: ";"@ };
    let f1 = (f - 1) as nat;  // fuel of sp_statement and of the next program round
    let f2 = (f1 - 1) as nat;  // fuel of the expression parse
    assert(sp_program(Seq::<TokenV>::empty(), f1) == (
        Seq::<StmtV>::empty(),
        Seq::<Seq<char>>::empty(),
    ));
    match s {
        StmtV::Let { name, value } => {

            let vtoks = expr_tokens(value);
            lemma_expr_parse(value, LOWEST, seq![semi]);
            assert(cur(ts).kind == Kind::Let && pk(ts).kind == Kind::Ident);
            assert(pk(adv(ts)).kind == Kind::Assign);
            assert(adv(adv(adv(ts))) =~= vtoks + seq![semi]);
            assert(sp_expression(vtoks + seq![semi], LOWEST, f2) == (
                Some(value),
                seq![vtoks.last()] + seq![semi],
                Seq::<Seq<char>>::empty(),
            ));
            assert(pk(seq![vtoks.last()] + seq![semi]) == semi);
            assert(adv(seq![vtoks.last()] + seq![semi]) =~= seq![semi]);
            assert(sp_statement(ts, f1) == (
                Some(reparsed_stmt(s)),
                seq![semi],
                Seq::<Seq<char>>::empty(),
            ));
            assert(adv(seq![semi]) =~= Seq::<TokenV>::empty());
            assert(sp_program(ts, f) == (seq![reparsed_stmt(s)], Seq::<Seq<char>>::empty()))
                by {
                assert(seq![reparsed_stmt(s)] + Seq::<StmtV>::empty() =~= seq![
                    reparsed_stmt(s),
                ]);
                assert(Seq::<Seq<char>>::empty() + Seq::<Seq<char>>::empty()
                    =~= Seq::<Seq<char>>::empty());
            }
        },
        _ => {},
    }
}

/// Parsing the tokens of one rendered return statement yields it back.
#[verifier::rlimit(100)]
proof fn lemma_return_stmt_parse(s: StmtV, f: nat)
    requires
        wf_stmt(s),
        s is Return,
        f >= 6 * stmt_tokens(s).len() + 14,
    ensures
        sp_program(stmt_tokens(s), f) == (seq![reparsed_stmt(s)], Seq::<Seq<char>>::empty()),
{
    let ts = stmt_tokens(s);
    let semi = TokenV { kind: Kind::SemiColon, text: ";"@ };
    let f1 = (f - 1) as nat;  // fuel of sp_statement and of the next program round
    let f2 = (f1 - 1) as nat;  // fuel of the expression parse
    assert(sp_program(Seq::<TokenV>::empty(), f1) == (
        Seq::<StmtV>::empty(),
        Seq::<Seq<char>>::empty(),
    ));
    match s {
        StmtV::Return(value) => {

            let vtoks = expr_tokens(value);
            lemma_expr_parse(value, LOWEST, seq![semi]);
            assert(cur(ts).kind == Kind::Return);
            assert(adv(ts) =~= vtoks + seq![semi]);
            assert(sp_expression(vtoks + seq![semi], LOWEST, f2) == (
                Some(value),
                seq![vtoks.last()] + seq![semi],
                Seq::<Seq<char>>::empty(),
            ));
            assert(pk(seq![vtoks.last()] + seq![semi]) == semi);
            assert(adv(seq![vtoks.last()] + seq![semi]) =~= seq![semi]);
            assert(sp_statement(ts, f1) == (
                Some(reparsed_stmt(s)),
                seq![semi],
                Seq::<Seq<char>>::empty(),
            ));
            assert(adv(seq![semi]) =~= Seq::<TokenV>::empty());
            assert(sp_program(ts, f) == (seq![reparsed_stmt(s)], Seq::<Seq<char>>::empty()))
                by {
                assert(seq![reparsed_stmt(s)] + Seq::<StmtV>::empty() =~= seq![
                    reparsed_stmt(s),
                ]);
                assert(Seq::<Seq<char>>::empty() + Seq::<Seq<char>>::empty()
                    =~= Seq::<Seq<char>>::empty());
            }
        },
        _ => {},
    }
}

/// Parsing the tokens of one rendered expression statement yields it back.
#[verifier::rlimit(100)]
proof fn lemma_expr_stmt_parse(s: StmtV, f: nat)
    requires
        wf_stmt(s),
        s is Expression,
        f >= 6 * stmt_tokens(s).len() + 14,
    ensures
        sp_program(stmt_tokens(s), f) == (seq![reparsed_stmt(s)], Seq::<Seq<char>>::empty()),
{
    let ts = stmt_tokens(s);
    let semi = TokenV { kind: Kind::SemiColon, text: ";"@ };
    let f1 = (f - 1) as nat;  // fuel of sp_statement and of the next program round
    let f2 = (f1 - 1) as nat;  // fuel of the expression parse
    assert(sp_program(Seq::<TokenV>::empty(), f1) == (
        Seq::<StmtV>::empty(),
        Seq::<Seq<char>>::empty(),
    ));
    match s {
        StmtV::Expression { expr, .. } => {

            let vtoks = expr_tokens(expr);
            lemma_expr_tokens_shape(expr);
            lemma_expr_parse(expr, LOWEST, Seq::empty());
            assert(cur(ts) == vtoks[0]);
            assert(cur(ts).kind != Kind::Let && cur(ts).kind != Kind::Return && cur(ts).kind
                != Kind::Eof);
            assert(vtoks + Seq::<TokenV>::empty() =~= ts);
            assert(sp_expression(ts, LOWEST, f2) == (
                Some(expr),
                seq![vtoks.last()],
                Seq::<Seq<char>>::empty(),
            )) by {
                assert(seq![vtoks.last()] + Seq::<TokenV>::empty() =~= seq![vtoks.last()]);
            }
            assert(pk(seq![vtoks.last()]) == eof_tok());
            assert(sp_statement(ts, f1) == (
                Some(reparsed_stmt(s)),
                seq![vtoks.last()],
                Seq::<Seq<char>>::empty(),
            ));
            assert(adv(seq![vtoks.last()]) =~= Seq::<TokenV>::empty());
            assert(sp_program(ts, f) == (seq![reparsed_stmt(s)], Seq::<Seq<char>>::empty()))
                by {
                assert(seq![reparsed_stmt(s)] + Seq::<StmtV>::empty() =~= seq![
                    reparsed_stmt(s),
                ]);
                assert(Seq::<Seq<char>>::empty() + Seq::<Seq<char>>::empty()
                    =~= Seq::<Seq<char>>::empty());
            }
        },
        _ => {},
    }
}

/// Parsing the tokens of one rendered statement yields exactly that
/// statement back (its token slots refilled), and no errors.
pub proof fn lemma_stmt_tokens_parse(s: StmtV, f: nat)
    requires
        wf_stmt(s),
        f >= 6 * stmt_tokens(s).len() + 14,
    ensures
        sp_program(stmt_tokens(s), f) == (seq![reparsed_stmt(s)], Seq::<Seq<char>>::empty()),
{
    match s {
        StmtV::Let { .. } => lemma_let_stmt_parse(s, f),
        StmtV::Return(_) => lemma_return_stmt_parse(s, f),
        StmtV::Expression { .. } => lemma_expr_stmt_parse(s, f),
    }
}

/// Rendering is a syntactic fixed point: render a single well-formed
/// statement as a program, tokenize and parse that text again, and what
/// comes back parses without errors and renders to the very same text.
pub proof fn lemma_statement_round_trip(s: StmtV, f: nat)
    requires
        wf_stmt(s),
        f >= 6 * stmt_tokens(s).len() + 14,
    ensures
        ({
            let p = seq![s];
            let reparsed = sp_program(tokens_from(stmts_text(p), 0), f);
            &&& reparsed.1 == Seq::<Seq<char>>::empty()
            &&& stmts_text(reparsed.0) == stmts_text(p)
        }),
{
    let p = seq![s];
    assert(stmts_text(p) == stmt_text(s)) by {
        assert(stmts_text_from(p, 1) =~= Seq::<char>::empty());
        assert(stmt_text(p[0]) + Seq::<char>::empty() =~= stmt_text(p[0]));
    }
    lemma_stmt_text_tokens(s);
    lemma_stmt_tokens_parse(s, f);
    let back = reparsed_stmt(s);
    assert(stmt_text(back) == stmt_text(s));
    assert(stmts_text(seq![back]) == stmt_text(back)) by {
        assert(stmts_text_from(seq![back], 1) =~= Seq::<char>::empty());
        assert(stmt_text(back) + Seq::<char>::empty() =~= stmt_text(back));
    }
}

} // verus!
