//! The abstract syntax tree: tagged-variant statements and expressions, the
//! program root, and the canonical textual rendering of every node.
//!
//! Each node type has a mathematical view (`ExprV`, `StmtV`, `IdentV`), and
//! the rendering functions are proved to produce exactly the text that the
//! specification-level `expr_text` / `stmt_text` functions describe. Prefix
//! and infix nodes render fully parenthesized, so a rendering is a
//! precedence-unambiguous image of the parsed structure.

use vstd::prelude::*;

use crate::digits::{int_text, int_to_string};
use crate::token::{Token, TokenV};

verus! {

/// The mathematical value of an identifier node: the token it came from and
/// the name it binds.
pub struct IdentV {
    pub token: TokenV,
    pub text: Seq<char>,
}

/// The mathematical value of an expression node.
pub enum ExprV {
    Identifier(Seq<char>),
    IntegerLiteral(i64),
    BooleanLiteral(bool),
    Prefix { operator: Seq<char>, right: Box<ExprV> },
    Infix { left: Box<ExprV>, operator: Seq<char>, right: Box<ExprV> },
    If { condition: Box<ExprV>, consequence: Seq<StmtV>, alternative: Option<Seq<StmtV>> },
    FunctionLiteral { parameters: Seq<IdentV>, body: Seq<StmtV> },
    Call { function: Box<ExprV>, arguments: Seq<ExprV> },
}

/// The mathematical value of a statement node.
pub enum StmtV {
    Let { name: IdentV, value: ExprV },
    Return(ExprV),
    Expression { token: TokenV, expr: ExprV },
}

/// A name bound by a `let` or standing as a function parameter.
#[derive(Debug, PartialEq)]
pub struct Identifer {
    pub token: Token,
    pub value: String,
}

/// An expression: one variant per syntactic form. Every child is owned
/// exclusively, so the tree is acyclic and never shared.
#[derive(Debug, PartialEq)]
pub enum Expression {
    Identifier(String),
    IntegerLiteral(i64),
    BooleanLiteral(bool),
    Prefix { operator: String, right: Box<Expression> },
    Infix { left: Box<Expression>, operator: String, right: Box<Expression> },
    If {
        condition: Box<Expression>,
        consequence: Box<BlockStatement>,
        alternative: Option<Box<BlockStatement>>,
    },
    FunctionLiteral { parameters: Vec<Identifer>, body: BlockStatement },
    Call { function: Box<Expression>, arguments: Vec<Expression> },
}

/// A statement: a binding, a return, or an expression evaluated for effect.
#[derive(Debug, PartialEq)]
pub enum Statement {
    Let { name: Identifer, value: Expression },
    Return(Expression),
    Expression { token: Token, expression: Expression },
}

/// The body of an `if` branch or of a function: an ordered sequence of
/// statements.
#[derive(Debug, PartialEq)]
pub struct BlockStatement {
    pub statements: Vec<Statement>,
}

/// The root of the syntax tree: the ordered top-level statements.
pub struct Program {
    pub statements: Vec<Statement>,
}

/// The view of an identifier node.
pub open spec fn ident_view(i: Identifer) -> IdentV {
    IdentV { token: i.token@, text: i.value@ }
}

/// The views of a sequence of identifier nodes.
pub open spec fn idents_view(s: Seq<Identifer>) -> Seq<IdentV> {
    Seq::new(s.len(), |i: int| ident_view(s[i]))
}

/// The view of an expression node.
pub open spec fn expr_view(e: Expression) -> ExprV
    decreases e,
{
    match e {
        Expression::Identifier(s) => ExprV::Identifier(s@),
        Expression::IntegerLiteral(v) => ExprV::IntegerLiteral(v),
        Expression::BooleanLiteral(b) => ExprV::BooleanLiteral(b),
        Expression::Prefix { operator, right } => ExprV::Prefix {
            operator: operator@,
            right: Box::new(expr_view(*right)),
        },
        Expression::Infix { left, operator, right } => ExprV::Infix {
            left: Box::new(expr_view(*left)),
            operator: operator@,
            right: Box::new(expr_view(*right)),
        },
        Expression::If { condition, consequence, alternative } => ExprV::If {
            condition: Box::new(expr_view(*condition)),
            consequence: block_view(*consequence),
            alternative: match alternative {
                Some(b) => Some(block_view(*b)),
                None => None,
            },
        },
        Expression::FunctionLiteral { parameters, body } => ExprV::FunctionLiteral {
            parameters: idents_view(parameters@),
            body: block_view(body),
        },
        Expression::Call { function, arguments } => ExprV::Call {
            function: Box::new(expr_view(*function)),
            arguments: exprs_view(arguments@),
        },
    }
}

/// The views of a sequence of expression nodes. The out-of-range guard is
/// never reached; it only keeps the recursion visibly well-founded.
pub open spec fn exprs_view(s: Seq<Expression>) -> Seq<ExprV>
    decreases s,
{
    Seq::new(
        s.len(),
        |i: int|
            if 0 <= i < s.len() {
                expr_view(s[i])
            } else {
                ExprV::BooleanLiteral(false)
            },
    )
}

/// The view of a statement node.
pub open spec fn stmt_view(s: Statement) -> StmtV
    decreases s,
{
    match s {
        Statement::Let { name, value } => StmtV::Let {
            name: ident_view(name),
            value: expr_view(value),
        },
        Statement::Return(value) => StmtV::Return(expr_view(value)),
        Statement::Expression { token, expression } => StmtV::Expression {
            token: token@,
            expr: expr_view(expression),
        },
    }
}

/// The views of a sequence of statement nodes. The out-of-range guard is
/// never reached; it only keeps the recursion visibly well-founded.
pub open spec fn stmts_view(s: Seq<Statement>) -> Seq<StmtV>
    decreases s,
{
    Seq::new(
        s.len(),
        |i: int|
            if 0 <= i < s.len() {
                stmt_view(s[i])
            } else {
                StmtV::Return(ExprV::BooleanLiteral(false))
            },
    )
}

/// The view of a block: the views of its statements.
pub open spec fn block_view(b: BlockStatement) -> Seq<StmtV>
    decreases b,
{
    stmts_view(b.statements@)
}

impl View for Identifer {
    type V = IdentV;

    open spec fn view(&self) -> IdentV {
        ident_view(*self)
    }
}

impl View for Expression {
    type V = ExprV;

    open spec fn view(&self) -> ExprV {
        expr_view(*self)
    }
}

impl View for Statement {
    type V = StmtV;

    open spec fn view(&self) -> StmtV {
        stmt_view(*self)
    }
}

impl View for BlockStatement {
    type V = Seq<StmtV>;

    open spec fn view(&self) -> Seq<StmtV> {
        block_view(*self)
    }
}

impl View for Program {
    type V = Seq<StmtV>;

    open spec fn view(&self) -> Seq<StmtV> {
        stmts_view(self.statements@)
    }
}

/// The canonical rendering of an expression. Prefix and infix nodes are
/// fully parenthesized regardless of how the source wrote them.
pub open spec fn expr_text(e: ExprV) -> Seq<char>
    decreases e, 0int,
{
    match e {
        ExprV::Identifier(s) => s,
        ExprV::IntegerLiteral(v) => int_text(v as int),
        ExprV::BooleanLiteral(b) => if b {
            "true"@
        } else {
            "false"@
        },
        ExprV::Prefix { operator, right } => "("@ + operator + expr_text(*right) + ")"@,
        ExprV::Infix { left, operator, right } => "("@ + expr_text(*left) + " "@ + operator + " "@
            + expr_text(*right) + ")"@,
        ExprV::If { condition, consequence, alternative } => match alternative {
            Some(alt) => "if"@ + expr_text(*condition) + " "@ + stmts_text(consequence) + "else "@
                + stmts_text(alt),
            None => "if"@ + expr_text(*condition) + " "@ + stmts_text(consequence),
        },
        ExprV::FunctionLiteral { parameters, body } => "fn("@ + params_text_from(parameters, 0)
            + ") "@ + stmts_text(body),
        ExprV::Call { function, arguments } => expr_text(*function) + "("@ + args_text_from(
            arguments,
            0,
        ) + ")"@,
    }
}

/// The rendering of the arguments of a call from index `k` on, separated by
/// a comma and a space.
pub open spec fn args_text_from(es: Seq<ExprV>, k: int) -> Seq<char>
    decreases es, es.len() - k,
{
    if k < 0 || k >= es.len() {
        Seq::empty()
    } else if k == es.len() - 1 {
        expr_text(es[k])
    } else {
        expr_text(es[k]) + ", "@ + args_text_from(es, k + 1)
    }
}

/// The rendering of a parameter list from index `k` on: the literal of each
/// parameter's token, separated by a comma and a space.
pub open spec fn params_text_from(ps: Seq<IdentV>, k: int) -> Seq<char>
    decreases ps.len() - k,
{
    if k < 0 || k >= ps.len() {
        Seq::empty()
    } else if k == ps.len() - 1 {
        ps[k].token.text
    } else {
        ps[k].token.text + ", "@ + params_text_from(ps, k + 1)
    }
}

/// The canonical rendering of a statement.
pub open spec fn stmt_text(s: StmtV) -> Seq<char>
    decreases s, 0int,
{
    match s {
        StmtV::Let { name, value } => "let "@ + name.text + " = "@ + expr_text(value) + ";"@,
        StmtV::Return(value) => "return "@ + expr_text(value) + ";"@,
        StmtV::Expression { expr, .. } => expr_text(expr),
    }
}

/// The canonical rendering of a sequence of statements: each statement's
/// rendering, one after another with nothing between.
pub open spec fn stmts_text(ss: Seq<StmtV>) -> Seq<char>
    decreases ss, ss.len() + 1,
{
    stmts_text_from(ss, 0)
}

/// The rendering of a sequence of statements from index `k` on.
pub open spec fn stmts_text_from(ss: Seq<StmtV>, k: int) -> Seq<char>
    decreases ss, ss.len() - k,
{
    if k < 0 || k >= ss.len() {
        Seq::empty()
    } else {
        stmt_text(ss[k]) + stmts_text_from(ss, k + 1)
    }
}

/// A node of the syntax tree: every node knows the literal of the token it
/// grew from.
pub trait Node {
    spec fn spec_token_literal(&self) -> Seq<char>;

    fn token_literal(&self) -> (r: String)
        ensures
            r@ == self.spec_token_literal(),
    ;
}

impl Node for Identifer {
    open spec fn spec_token_literal(&self) -> Seq<char> {
        self.token@.text
    }

    fn token_literal(&self) -> (r: String) {
        self.token.literal.clone()
    }
}

impl Node for Statement {
    open spec fn spec_token_literal(&self) -> Seq<char> {
        match self {
            Statement::Let { .. } => "let"@,
            Statement::Return(_) => "return"@,
            Statement::Expression { token, .. } => token@.text,
        }
    }

    fn token_literal(&self) -> (r: String) {
        match self {
            Statement::Let { .. } => "let".to_owned(),
            Statement::Return(_) => "return".to_owned(),
            Statement::Expression { token, .. } => token.literal.clone(),
        }
    }
}

impl Node for Expression {
    open spec fn spec_token_literal(&self) -> Seq<char> {
        match self {
            Expression::Identifier(value) => value@,
            Expression::IntegerLiteral(value) => int_text(*value as int),
            Expression::BooleanLiteral(value) => if *value {
                "true"@
            } else {
                "false"@
            },
            Expression::Prefix { operator, .. } => operator@,
            Expression::Infix { operator, .. } => operator@,
            Expression::If { .. } => "if"@,
            Expression::FunctionLiteral { .. } => "fn"@,
            Expression::Call { .. } => "("@,
        }
    }

    fn token_literal(&self) -> (r: String) {
        match self {
            Expression::Identifier(value) => value.clone(),
            Expression::IntegerLiteral(value) => int_to_string(*value),
            Expression::BooleanLiteral(value) => if *value {
                "true".to_owned()
            } else {
                "false".to_owned()
            },
            Expression::Prefix { operator, .. } => operator.clone(),
            Expression::Infix { operator, .. } => operator.clone(),
            Expression::If { .. } => "if".to_owned(),
            Expression::FunctionLiteral { .. } => "fn".to_owned(),
            Expression::Call { .. } => "(".to_owned(),
        }
    }
}

impl Node for BlockStatement {
    open spec fn spec_token_literal(&self) -> Seq<char> {
        "{"@
    }

    fn token_literal(&self) -> (r: String) {
        "{".to_owned()
    }
}

impl Node for Program {
    open spec fn spec_token_literal(&self) -> Seq<char> {
        if self.statements@.len() > 0 {
            self.statements@[0].spec_token_literal()
        } else {
            Seq::empty()
        }
    }

    fn token_literal(&self) -> (r: String) {
        if self.statements.len() > 0 {
            self.statements[0].token_literal()
        } else {
            String::new()
        }
    }
}

impl Identifer {
    /// The display form of the name: the bound value itself.
    pub fn render(&self) -> (r: String)
        ensures
            r@ == self@.text,
    {
        self.value.clone()
    }
}

impl Expression {
    /// The canonical textual rendering of the expression.
    pub fn render(&self) -> (r: String)
        ensures
            r@ == expr_text(self@),
        decreases *self, 0int,
    {
        match self {
            Expression::Identifier(value) => value.clone(),
            Expression::IntegerLiteral(value) => int_to_string(*value),
            Expression::BooleanLiteral(value) => if *value {
                "true".to_owned()
            } else {
                "false".to_owned()
            },
            Expression::Prefix { operator, right } => {
                let mut s = String::new();
                s.append("(");
                s.append(operator.as_str());
                let rr = right.render();
                s.append(rr.as_str());
                s.append(")");
                proof {
                    assert(s@ =~= expr_text(self@));
                }
                s
            },
            Expression::Infix { left, operator, right } => {
                let mut s = String::new();
                s.append("(");
                let lr = left.render();
                s.append(lr.as_str());
                s.append(" ");
                s.append(operator.as_str());
                s.append(" ");
                let rr = right.render();
                s.append(rr.as_str());
                s.append(")");
                proof {
                    assert(s@ =~= expr_text(self@));
                }
                s
            },
            Expression::If { condition, consequence, alternative } => {
                let mut s = String::new();
                s.append("if");
                let cr = condition.render();
                s.append(cr.as_str());
                s.append(" ");
                let br = consequence.render();
                s.append(br.as_str());
                match alternative {
                    Some(alt) => {
                        s.append("else ");
                        let ar = alt.render();
                        s.append(ar.as_str());
                    },
                    None => {},
                }
                proof {
                    assert(s@ =~= expr_text(self@));
                }
                s
            },
            Expression::FunctionLiteral { parameters, body } => {
                let mut s = String::new();
                s.append("fn(");
                let pr = render_params_from(parameters, 0);
                s.append(pr.as_str());
                s.append(") ");
                let br = body.render();
                s.append(br.as_str());
                proof {
                    assert(s@ =~= expr_text(self@));
                }
                s
            },
            Expression::Call { function, arguments } => {
                let fr = function.render();
                let mut s = fr;
                s.append("(");
                let ar = render_args_from(arguments, 0);
                s.append(ar.as_str());
                s.append(")");
                proof {
                    assert(s@ =~= expr_text(self@));
                }
                s
            },
        }
    }
}

/// Renders the arguments of a call from index `k` on, separated by a comma
/// and a space.
fn render_args_from(es: &Vec<Expression>, k: usize) -> (r: String)
    requires
        k <= es@.len(),
    ensures
        r@ == args_text_from(exprs_view(es@), k as int),
    decreases es@, es@.len() - k,
{
    let n = es.len();
    if k >= n {
        String::new()
    } else if k == n - 1 {
        let r = es[k].render();
        proof {
            assert(exprs_view(es@)[k as int] == expr_view(es@[k as int]));
        }
        r
    } else {
        let mut s = es[k].render();
        s.append(", ");
        let rest = render_args_from(es, k + 1);
        s.append(rest.as_str());
        proof {
            assert(exprs_view(es@)[k as int] == expr_view(es@[k as int]));
            assert(s@ =~= args_text_from(exprs_view(es@), k as int));
        }
        s
    }
}

/// Renders a parameter list from index `k` on: each parameter's token
/// literal, separated by a comma and a space.
fn render_params_from(ps: &Vec<Identifer>, k: usize) -> (r: String)
    requires
        k <= ps@.len(),
    ensures
        r@ == params_text_from(idents_view(ps@), k as int),
    decreases ps@.len() - k,
{
    let n = ps.len();
    if k >= n {
        String::new()
    } else if k == n - 1 {
        ps[k].token.literal.clone()
    } else {
        let mut s = ps[k].token.literal.clone();
        s.append(", ");
        let rest = render_params_from(ps, k + 1);
        s.append(rest.as_str());
        proof {
            assert(s@ =~= params_text_from(idents_view(ps@), k as int));
        }
        s
    }
}

/// Renders a run of statements from index `k` on, one after another.
fn render_stmts_from(ss: &Vec<Statement>, k: usize) -> (r: String)
    requires
        k <= ss@.len(),
    ensures
        r@ == stmts_text_from(stmts_view(ss@), k as int),
    decreases ss@, ss@.len() - k,
{
    let n = ss.len();
    if k >= n {
        String::new()
    } else {
        let mut s = ss[k].render();
        let rest = render_stmts_from(ss, k + 1);
        s.append(rest.as_str());
        proof {
            assert(stmts_view(ss@)[k as int] == stmt_view(ss@[k as int]));
            assert(s@ =~= stmts_text_from(stmts_view(ss@), k as int));
        }
        s
    }
}

impl Statement {
    /// The canonical textual rendering of the statement.
    pub fn render(&self) -> (r: String)
        ensures
            r@ == stmt_text(self@),
        decreases *self, 0int,
    {
        match self {
            Statement::Let { name, value } => {
                let mut s = String::new();
                s.append("let ");
                s.append(name.value.as_str());
                s.append(" = ");
                let vr = value.render();
                s.append(vr.as_str());
                s.append(";");
                proof {
                    assert(s@ =~= stmt_text(self@));
                }
                s
            },
            Statement::Return(value) => {
                let mut s = String::new();
                s.append("return ");
                let vr = value.render();
                s.append(vr.as_str());
                s.append(";");
                proof {
                    assert(s@ =~= stmt_text(self@));
                }
                s
            },
            Statement::Expression { token: _, expression } => expression.render(),
        }
    }
}

impl BlockStatement {
    /// The canonical textual rendering of the block: its statements one
    /// after another.
    pub fn render(&self) -> (r: String)
        ensures
            r@ == stmts_text(self@),
        decreases *self, 1int,
    {
        render_stmts_from(&self.statements, 0)
    }
}

impl Program {
    /// The canonical textual rendering of the program: its statements one
    /// after another.
    pub fn render(&self) -> (r: String)
        ensures
            r@ == stmts_text(self@),
    {
        render_stmts_from(&self.statements, 0)
    }
}

} // verus!
