//! A recursive-descent parser for Lox.
//!
//! The parser reads a token sequence and yields one top-level declaration at
//! a time. Each parsing function is proved to follow the grammar of
//! [`crate::syntax`]: its result, seen through the view functions below, is
//! the grammar's result on the same tokens.
use std::rc::Rc;
use vstd::prelude::*;
use crate::lexer::{lemma_token_view, tokenize, tokens_of, view_tokens, SpecToken, Token};
use crate::syntax::{
    args_at, args_list, true_expr, desugar_for, binary_at, binary_rest, block_at, block_list, call_at, call_rest, decl_at,
    expr_at, for_at, for_cond_at, for_incr_at, for_init_at, logic_and_at, logic_or_at, assignment_at,
    is_at, operand_at, params_at, params_list, primary_at, stmt_at, unary_at, op_at, BinaryOp, SpecDecl,
    SpecExpr, SpecStmt, MAX_ARGUMENTS, args_fail, args_list_fail, assignment_fail, binary_fail,
    binary_rest_fail, block_fail, call_fail, if_fail, while_fail, stmt_end_at, call_rest_fail, decl_fail, expr_fail, for_cond_fail,
    for_fail, for_incr_fail, for_init_fail, logic_and_fail, logic_or_fail, operand_fail,
    params_fail, params_list_fail, primary_fail, stmt_fail, unary_fail,
};

verus! {

#[derive(Debug, PartialEq)]
pub enum AstPrimary {
    /// A numeric literal, kept as its spelling.
    Number(String),
    Str(String),
    True,
    False,
    Nil,
    Group(Box<AstExpression>),
    Id(String),
}

#[derive(Debug, PartialEq)]
pub enum AstCall {
    Primary(AstPrimary),
    /// A call expression: `callee(arguments)`. Calls chain left-associatively,
    /// so `f()()` nests as `Call(Call(Primary(f), []), [])`.
    Call(Box<AstCall>, Vec<AstExpression>),
}

#[derive(Debug, PartialEq)]
pub enum AstUnary {
    Call(AstCall),
    Not(Box<AstUnary>),
    Negative(Box<AstUnary>),
}

#[derive(Debug, PartialEq)]
pub enum AstFactor {
    Unary(AstUnary),
    Mul(Box<AstFactor>, AstUnary),
    Div(Box<AstFactor>, AstUnary),
}

#[derive(Debug, PartialEq)]
pub enum AstTerm {
    Factor(AstFactor),
    Add(Box<AstTerm>, AstFactor),
    Sub(Box<AstTerm>, AstFactor),
}

#[derive(Debug, PartialEq)]
pub enum AstComparison {
    Term(AstTerm),
    GreaterEqual(Box<AstComparison>, AstTerm),
    Greater(Box<AstComparison>, AstTerm),
    LessEqual(Box<AstComparison>, AstTerm),
    Less(Box<AstComparison>, AstTerm),
}

#[derive(Debug, PartialEq)]
pub enum AstEquality {
    Comparison(AstComparison),
    Equal(Box<AstEquality>, AstComparison),
    NotEqual(Box<AstEquality>, AstComparison),
}

#[derive(Debug, PartialEq)]
pub enum AstLogicAnd {
    And(AstEquality, Option<Box<AstLogicAnd>>),
}

#[derive(Debug, PartialEq)]
pub enum AstLogicOr {
    Or(AstLogicAnd, Option<Box<AstLogicOr>>),
}

#[derive(Debug, PartialEq)]
pub enum AstAssignment {
    Assign(String, Box<AstAssignment>),
    LogicOr(AstLogicOr),
}

#[derive(Debug, PartialEq)]
pub enum AstExpression {
    Assignment(AstAssignment),
}

#[derive(Debug, PartialEq)]
pub enum AstStatement {
    Expr(AstExpression),
    Print(AstExpression),
    Block(Vec<AstDeclaration>),
    If(AstExpression, Box<AstStatement>, Option<Box<AstStatement>>),
    While(AstExpression, Box<AstStatement>),
}

#[derive(Debug, PartialEq)]
pub enum AstDeclaration {
    VarDeclare(String, AstExpression),
    /// A function declaration: `fun name(params) { body }`. The body is shared
    /// via `Rc` so that a function value can own it independently of the
    /// tree it came from.
    FunDeclare { name: String, params: Vec<String>, body: Rc<Vec<AstDeclaration>> },
    Statement(AstStatement),
}

#[derive(Debug, PartialEq)]
pub enum Ast {
    Declare(AstDeclaration),
}

// Views: the mathematical form of each tree.
pub open spec fn view_primary(p: AstPrimary) -> SpecExpr
    decreases p,
{
    match p {
        AstPrimary::Number(n) => SpecExpr::Number(n@),
        AstPrimary::Str(s) => SpecExpr::Str(s@),
        AstPrimary::True => SpecExpr::True,
        AstPrimary::False => SpecExpr::False,
        AstPrimary::Nil => SpecExpr::Nil,
        AstPrimary::Group(e) => SpecExpr::Group(Box::new(view_expr(*e))),
        AstPrimary::Id(x) => SpecExpr::Id(x@),
    }
}

pub open spec fn view_call(c: AstCall) -> SpecExpr
    decreases c,
{
    match c {
        AstCall::Primary(p) => view_primary(p),
        AstCall::Call(callee, args) => SpecExpr::Call(
            Box::new(view_call(*callee)),
            view_exprs(args@),
        ),
    }
}

pub open spec fn view_exprs(s: Seq<AstExpression>) -> Seq<SpecExpr>
    decreases s,
{
    Seq::new(
        s.len(),
        |k: int|
            if 0 <= k < s.len() {
                view_expr(s[k])
            } else {
                SpecExpr::Nil
            },
    )
}

pub open spec fn view_unary(u: AstUnary) -> SpecExpr
    decreases u,
{
    match u {
        AstUnary::Call(c) => view_call(c),
        AstUnary::Not(v) => SpecExpr::Not(Box::new(view_unary(*v))),
        AstUnary::Negative(v) => SpecExpr::Negative(Box::new(view_unary(*v))),
    }
}

pub open spec fn view_factor(f: AstFactor) -> SpecExpr
    decreases f,
{
    match f {
        AstFactor::Unary(u) => view_unary(u),
        AstFactor::Mul(l, r) => SpecExpr::Binary(
            BinaryOp::Mul,
            Box::new(view_factor(*l)),
            Box::new(view_unary(r)),
        ),
        AstFactor::Div(l, r) => SpecExpr::Binary(
            BinaryOp::Div,
            Box::new(view_factor(*l)),
            Box::new(view_unary(r)),
        ),
    }
}

pub open spec fn view_term(t: AstTerm) -> SpecExpr
    decreases t,
{
    match t {
        AstTerm::Factor(f) => view_factor(f),
        AstTerm::Add(l, r) => SpecExpr::Binary(
            BinaryOp::Add,
            Box::new(view_term(*l)),
            Box::new(view_factor(r)),
        ),
        AstTerm::Sub(l, r) => SpecExpr::Binary(
            BinaryOp::Sub,
            Box::new(view_term(*l)),
            Box::new(view_factor(r)),
        ),
    }
}

pub open spec fn view_comparison(c: AstComparison) -> SpecExpr
    decreases c,
{
    match c {
        AstComparison::Term(t) => view_term(t),
        AstComparison::GreaterEqual(l, r) => SpecExpr::Binary(
            BinaryOp::GreaterEqual,
            Box::new(view_comparison(*l)),
            Box::new(view_term(r)),
        ),
        AstComparison::Greater(l, r) => SpecExpr::Binary(
            BinaryOp::Greater,
            Box::new(view_comparison(*l)),
            Box::new(view_term(r)),
        ),
        AstComparison::LessEqual(l, r) => SpecExpr::Binary(
            BinaryOp::LessEqual,
            Box::new(view_comparison(*l)),
            Box::new(view_term(r)),
        ),
        AstComparison::Less(l, r) => SpecExpr::Binary(
            BinaryOp::Less,
            Box::new(view_comparison(*l)),
            Box::new(view_term(r)),
        ),
    }
}

pub open spec fn view_equality(e: AstEquality) -> SpecExpr
    decreases e,
{
    match e {
        AstEquality::Comparison(c) => view_comparison(c),
        AstEquality::Equal(l, r) => SpecExpr::Binary(
            BinaryOp::Equal,
            Box::new(view_equality(*l)),
            Box::new(view_comparison(r)),
        ),
        AstEquality::NotEqual(l, r) => SpecExpr::Binary(
            BinaryOp::NotEqual,
            Box::new(view_equality(*l)),
            Box::new(view_comparison(r)),
        ),
    }
}

pub open spec fn view_logic_and(a: AstLogicAnd) -> SpecExpr
    decreases a,
{
    match a {
        AstLogicAnd::And(e, None) => view_equality(e),
        AstLogicAnd::And(e, Some(tail)) => SpecExpr::And(
            Box::new(view_equality(e)),
            Box::new(view_logic_and(*tail)),
        ),
    }
}

pub open spec fn view_logic_or(o: AstLogicOr) -> SpecExpr
    decreases o,
{
    match o {
        AstLogicOr::Or(a, None) => view_logic_and(a),
        AstLogicOr::Or(a, Some(tail)) => SpecExpr::Or(
            Box::new(view_logic_and(a)),
            Box::new(view_logic_or(*tail)),
        ),
    }
}

pub open spec fn view_assignment(a: AstAssignment) -> SpecExpr
    decreases a,
{
    match a {
        AstAssignment::Assign(x, v) => SpecExpr::Assign(x@, Box::new(view_assignment(*v))),
        AstAssignment::LogicOr(o) => view_logic_or(o),
    }
}

pub open spec fn view_expr(e: AstExpression) -> SpecExpr
    decreases e,
{
    match e {
        AstExpression::Assignment(a) => view_assignment(a),
    }
}

pub open spec fn view_stmt(s: AstStatement) -> SpecStmt
    decreases s,
{
    match s {
        AstStatement::Expr(e) => SpecStmt::Expr(view_expr(e)),
        AstStatement::Print(e) => SpecStmt::Print(view_expr(e)),
        AstStatement::Block(ds) => SpecStmt::Block(view_block(ds)),
        AstStatement::If(c, th, el) => SpecStmt::If(
            view_expr(c),
            Box::new(view_stmt(*th)),
            view_else(el),
        ),
        AstStatement::While(c, body) => SpecStmt::While(view_expr(c), Box::new(view_stmt(*body))),
    }
}

pub open spec fn view_else(el: Option<Box<AstStatement>>) -> Option<Box<SpecStmt>>
    decreases el,
{
    match el {
        Some(b) => Some(Box::new(view_stmt(*b))),
        None => None,
    }
}

pub open spec fn view_block(ds: Vec<AstDeclaration>) -> Seq<SpecDecl>
    decreases ds,
{
    view_decls(ds@)
}

pub open spec fn view_decl(d: AstDeclaration) -> SpecDecl
    decreases d,
{
    match d {
        AstDeclaration::VarDeclare(x, e) => SpecDecl::Var(x@, view_expr(e)),
        AstDeclaration::FunDeclare { name, params, body } => SpecDecl::Fun(
            name@,
            view_names(params@),
            view_block(*body),
        ),
        AstDeclaration::Statement(s) => SpecDecl::Stmt(view_stmt(s)),
    }
}

pub open spec fn view_decls(s: Seq<AstDeclaration>) -> Seq<SpecDecl>
    decreases s,
{
    Seq::new(
        s.len(),
        |k: int|
            if 0 <= k < s.len() {
                view_decl(s[k])
            } else {
                SpecDecl::Stmt(SpecStmt::Block(seq![]))
            },
    )
}

/// Viewing a list keeps its length.
#[verifier::spinoff_prover]
pub proof fn lemma_view_exprs_len(s: Seq<AstExpression>)
    ensures
        view_exprs(s).len() == s.len(),
{
}


/// Viewing a list after a push views the pushed element last.
#[verifier::spinoff_prover]
pub proof fn lemma_view_exprs_push(s: Seq<AstExpression>, e: AstExpression)
    ensures
        view_exprs(s.push(e)) == view_exprs(s).push(view_expr(e)),
{
    assert(s.push(e).subrange(0, s.len() as int) =~= s);
}

/// Viewing a list after a push views the pushed element last.
#[verifier::spinoff_prover]
pub proof fn lemma_view_decls_push(s: Seq<AstDeclaration>, d: AstDeclaration)
    ensures
        view_decls(s.push(d)) == view_decls(s).push(view_decl(d)),
{
    assert(s.push(d).subrange(0, s.len() as int) =~= s);
}

/// The character sequences of a list of names.
pub open spec fn view_names(s: Seq<String>) -> Seq<Seq<char>> {
    s.map_values(|x: String| x@)
}

impl View for AstExpression {
    type V = SpecExpr;

    open spec fn view(&self) -> SpecExpr {
        view_expr(*self)
    }
}

impl View for AstStatement {
    type V = SpecStmt;

    open spec fn view(&self) -> SpecStmt {
        view_stmt(*self)
    }
}

impl View for AstDeclaration {
    type V = SpecDecl;

    open spec fn view(&self) -> SpecDecl {
        view_decl(*self)
    }
}

/// The mathematical form of a top-level declaration.
#[verifier::opaque]
pub open spec fn view_ast(a: Ast) -> SpecDecl {
    match a {
        Ast::Declare(d) => view_decl(d),
    }
}

impl View for Ast {
    type V = SpecDecl;

    open spec fn view(&self) -> SpecDecl {
        view_ast(*self)
    }
}


/// A parse result seen through a view function, with its end index as an
/// integer.
pub open spec fn lift<X, V>(r: Option<(X, usize)>, f: spec_fn(X) -> V) -> Option<(V, int)> {
    match r {
        Some((x, k)) => Some((f(x), k as int)),
        None => None,
    }
}

/// A successful parse from `i` ends after `i`, within the tokens.
pub open spec fn advances<X>(r: Option<(X, usize)>, i: usize, n: nat) -> bool {
    r matches Some((_, k)) ==> i < k <= n
}

/// The name that an identifier token holds.
#[verifier::spinoff_prover]
pub fn parse_id(head: &Token) -> (r: Option<String>)
    ensures
        match head@ {
            Token::Identifier(x) => r matches Some(s) && s@ == x,
            _ => r is None,
        },
{
    proof {
        lemma_token_view(*head);
    }
    match head {
        Token::Identifier(var) => Some(var.clone()),
        _ => None,
    }
}

/// The view of the token at `k` is the `k`-th token of the view.
#[verifier::spinoff_prover]
proof fn lemma_token_at(toks: Seq<Token>, k: int)
    requires
        0 <= k < toks.len(),
    ensures
        view_tokens(toks)[k] == toks[k]@,
        view_tokens(toks).len() == toks.len(),
{
    lemma_token_view(toks[k]);
}

#[verifier::spinoff_prover]
fn parse_primary(toks: &Vec<Token>, i: usize) -> (r: Option<(AstPrimary, usize)>)
    ensures
        lift(r, |p: AstPrimary| view_primary(p)) == primary_at(view_tokens(toks@), i as int),
        advances(r, i, toks@.len()),
    decreases toks@.len() - i, 1int,
{
    if i >= toks.len() {
        return None;
    }
    let ghost t = view_tokens(toks@);
    proof {
        lemma_token_at(toks@, i as int);
        lemma_token_view(toks@[i as int]);
    }
    match &toks[i] {
        Token::Number(num) => Some((AstPrimary::Number(num.clone()), i + 1)),
        Token::String(s) => Some((AstPrimary::Str(s.clone()), i + 1)),
        Token::True => Some((AstPrimary::True, i + 1)),
        Token::False => Some((AstPrimary::False, i + 1)),
        Token::Nil => Some((AstPrimary::Nil, i + 1)),
        Token::Identifier(x) => Some((AstPrimary::Id(x.clone()), i + 1)),
        Token::LParens => parse_group(toks, i),
        _ => None,
    }
}

/// A parenthesized expression whose "(" is at `i`.
#[verifier::spinoff_prover]
fn parse_group(toks: &Vec<Token>, i: usize) -> (r: Option<(AstPrimary, usize)>)
    requires
        i < toks@.len(),
        toks@[i as int] is LParens,
    ensures
        lift(r, |p: AstPrimary| view_primary(p)) == primary_at(view_tokens(toks@), i as int),
        advances(r, i, toks@.len()),
    decreases toks@.len() - i, 0int,
{
    let ghost t = view_tokens(toks@);
    proof {
        lemma_token_at(toks@, i as int);
        lemma_token_view(toks@[i as int]);
    }
    let n = toks.len();
    match parse_expr(toks, i + 1) {
        Some((expr, j)) => {
            if j < n {
                proof {
                    lemma_token_at(toks@, j as int);
                    lemma_token_view(toks@[j as int]);
                }
            }
            if j < n && matches!(toks[j], Token::RParens) {
                proof {
                    lemma_view_group(expr);
                }
                Some((AstPrimary::Group(Box::new(expr)), j + 1))
            } else {
                None
            }
        },
        None => None,
    }
}

/// Parse a comma-separated argument list, the opening `(` already consumed;
/// consumes through the closing `)`. The [`MAX_ARGUMENTS`] limit is enforced
/// by the caller.
#[verifier::spinoff_prover]
fn parse_arguments(toks: &Vec<Token>, i: usize) -> (r: Option<(Vec<AstExpression>, usize)>)
    ensures
        lift(r, |a: Vec<AstExpression>| view_exprs(a@)) == args_at(view_tokens(toks@), i as int),
        advances(r, i, toks@.len()),
    decreases toks@.len() - i, 31int,
{
    let ghost t = view_tokens(toks@);
    let mut args: Vec<AstExpression> = Vec::new();
    if i >= toks.len() {
        return None;
    }
    proof {
        lemma_token_at(toks@, i as int);
        lemma_token_view(toks@[i as int]);
    }
    if matches!(toks[i], Token::RParens) {
        assert(view_exprs(args@) =~= seq![]);
        return Some((args, i + 1));
    }
    let mut j = i;
    assert(view_exprs(args@) =~= seq![]);
    loop
        invariant
            t == view_tokens(toks@),
            t.len() == toks@.len(),
            i <= j <= toks@.len(),
            args_list(t, j as int, view_exprs(args@)) == args_at(t, i as int),
        decreases toks@.len() - j,
    {
        let ghost acc = view_exprs(args@);
        assert(args_list(t, j as int, acc) == match expr_at(t, j as int) {
            Some((e, k)) => if j < k <= t.len() {
                if is_at(t, k, Token::Comma) {
                    args_list(t, k + 1, acc.push(e))
                } else if is_at(t, k, Token::RParens) {
                    Some((acc.push(e), k + 1))
                } else {
                    None
                }
            } else {
                None
            },
            None => None,
        }) by {
            if j >= t.len() {
                assert(expr_at(t, j as int) is None);
            }
        }
        match parse_expr(toks, j) {
            None => return None,
            Some((e, k)) => {
                let ghost before = args@;
                proof {
                    lemma_view_exprs_push(before, e);
                }
                args.push(e);
                if k < toks.len() {
                    proof {
                        lemma_token_at(toks@, k as int);
                        lemma_token_view(toks@[k as int]);
                    }
                }
                if k < toks.len() && matches!(toks[k], Token::Comma) {
                    j = k + 1;
                } else if k < toks.len() && matches!(toks[k], Token::RParens) {
                    return Some((args, k + 1));
                } else {
                    return None;
                }
            },
        }
    }
}

/// Parse a `call` expression: a primary followed by zero or more argument
/// lists. Calls are left-associative.
#[verifier::spinoff_prover]
fn parse_call(toks: &Vec<Token>, i: usize) -> (r: Option<(AstCall, usize)>)
    ensures
        lift(r, |c: AstCall| view_call(c)) == call_at(view_tokens(toks@), i as int),
        advances(r, i, toks@.len()),
    decreases toks@.len() - i, 4int,
{
    let ghost t = view_tokens(toks@);
    if i >= toks.len() {
        return None;
    }
    let (primary, j0) = match parse_primary(toks, i) {
        Some(x) => x,
        None => return None,
    };
    proof {
        lemma_view_call_primary(primary);
    }
    let mut expr = AstCall::Primary(primary);
    let mut j = j0;
    loop
        invariant
            t == view_tokens(toks@),
            t.len() == toks@.len(),
            i < j <= toks@.len(),
            call_rest(t, view_call(expr), j as int) == call_at(t, i as int),
        decreases toks@.len() - j,
    {
        if j < toks.len() {
            proof {
                lemma_token_at(toks@, j as int);
                lemma_token_view(toks@[j as int]);
            }
        }
        if j < toks.len() && matches!(toks[j], Token::LParens) {
            match parse_arguments(toks, j + 1) {
                None => return None,
                Some((args, k)) => {
                    proof {
                        lemma_view_exprs_len(args@);
                    }
                    assert(args_at(t, j + 1) == Some((view_exprs(args@), k as int)));
                    assert(call_rest(t, view_call(expr), j as int) == if view_exprs(args@).len()
                        > MAX_ARGUMENTS {
                        None
                    } else {
                        call_rest(t, SpecExpr::Call(Box::new(view_call(expr)), view_exprs(args@)), k as int)
                    });
                    if args.len() > MAX_ARGUMENTS {
                        return None;
                    }
                    proof {
                        lemma_view_call_call(expr, args);
                    }
                    expr = AstCall::Call(Box::new(expr), args);
                    j = k;
                },
            }
        } else {
            return Some((expr, j));
        }
    }
}

#[verifier::spinoff_prover]
fn parse_unary(toks: &Vec<Token>, i: usize) -> (r: Option<(AstUnary, usize)>)
    ensures
        lift(r, |u: AstUnary| view_unary(u)) == unary_at(view_tokens(toks@), i as int),
        advances(r, i, toks@.len()),
    decreases toks@.len() - i, 5int,
{
    if i >= toks.len() {
        return None;
    }
    proof {
        lemma_token_at(toks@, i as int);
        lemma_token_view(toks@[i as int]);
    }
    match &toks[i] {
        Token::Bang => match parse_unary(toks, i + 1) {
            Some((unary, j)) => Some((AstUnary::Not(Box::new(unary)), j)),
            None => None,
        },
        Token::Minus => match parse_unary(toks, i + 1) {
            Some((unary, j)) => Some((AstUnary::Negative(Box::new(unary)), j)),
            None => None,
        },
        _ => match parse_call(toks, i) {
            Some((call, j)) => Some((AstUnary::Call(call), j)),
            None => None,
        },
    }
}

#[verifier::spinoff_prover]
fn parse_factor(toks: &Vec<Token>, i: usize) -> (r: Option<(AstFactor, usize)>)
    ensures
        lift(r, |x: AstFactor| view_factor(x)) == binary_at(view_tokens(toks@), i as int, 1),
        advances(r, i, toks@.len()),
    decreases toks@.len() - i, 8int,
{
    let ghost t = view_tokens(toks@);
    if i >= toks.len() {
        return None;
    }
    let (first, j0) = match parse_unary(toks, i) {
        Some(x) => x,
        None => return None,
    };
    assert(operand_at(t, i as int, 1) == unary_at(t, i as int));
    let mut lhs = AstFactor::Unary(first);
    assert(view_factor(lhs) == view_unary(first));
    let mut j = j0;
    loop
        invariant
            t == view_tokens(toks@),
            t.len() == toks@.len(),
            i < j <= toks@.len(),
            binary_rest(t, view_factor(lhs), j as int, 1) == binary_at(t, i as int, 1),
        decreases toks@.len() - j,
    {
        if j >= toks.len() {
            return Some((lhs, j));
        }
        assert(operand_at(t, j + 1, 1) == unary_at(t, j + 1));
        proof {
            lemma_token_at(toks@, j as int);
            lemma_token_view(toks@[j as int]);
        }
        match &toks[j] {
            Token::Slash => match parse_unary(toks, j + 1) {
                Some((rhs, k)) => {
                    lhs = AstFactor::Div(Box::new(lhs), rhs);
                    j = k;
                },
                None => return None,
            },
            Token::Star => match parse_unary(toks, j + 1) {
                Some((rhs, k)) => {
                    lhs = AstFactor::Mul(Box::new(lhs), rhs);
                    j = k;
                },
                None => return None,
            },
            _ => return Some((lhs, j)),
        }
    }
}

#[verifier::spinoff_prover]
fn parse_term(toks: &Vec<Token>, i: usize) -> (r: Option<(AstTerm, usize)>)
    ensures
        lift(r, |x: AstTerm| view_term(x)) == binary_at(view_tokens(toks@), i as int, 2),
        advances(r, i, toks@.len()),
    decreases toks@.len() - i, 10int,
{
    let ghost t = view_tokens(toks@);
    if i >= toks.len() {
        return None;
    }
    let (first, j0) = match parse_factor(toks, i) {
        Some(x) => x,
        None => return None,
    };
    assert(operand_at(t, i as int, 2) == binary_at(t, i as int, 1));
    let mut lhs = AstTerm::Factor(first);
    assert(view_term(lhs) == view_factor(first));
    let mut j = j0;
    loop
        invariant
            t == view_tokens(toks@),
            t.len() == toks@.len(),
            i < j <= toks@.len(),
            binary_rest(t, view_term(lhs), j as int, 2) == binary_at(t, i as int, 2),
        decreases toks@.len() - j,
    {
        if j >= toks.len() {
            return Some((lhs, j));
        }
        assert(operand_at(t, j + 1, 2) == binary_at(t, j + 1, 1));
        proof {
            lemma_token_at(toks@, j as int);
            lemma_token_view(toks@[j as int]);
        }
        match &toks[j] {
            Token::Minus => match parse_factor(toks, j + 1) {
                Some((rhs, k)) => {
                    lhs = AstTerm::Sub(Box::new(lhs), rhs);
                    j = k;
                },
                None => return None,
            },
            Token::Plus => match parse_factor(toks, j + 1) {
                Some((rhs, k)) => {
                    lhs = AstTerm::Add(Box::new(lhs), rhs);
                    j = k;
                },
                None => return None,
            },
            _ => return Some((lhs, j)),
        }
    }
}

#[verifier::spinoff_prover]
fn parse_comparison(toks: &Vec<Token>, i: usize) -> (r: Option<(AstComparison, usize)>)
    ensures
        lift(r, |x: AstComparison| view_comparison(x)) == binary_at(view_tokens(toks@), i as int, 3),
        advances(r, i, toks@.len()),
    decreases toks@.len() - i, 12int,
{
    let ghost t = view_tokens(toks@);
    if i >= toks.len() {
        return None;
    }
    let (first, j0) = match parse_term(toks, i) {
        Some(x) => x,
        None => return None,
    };
    assert(operand_at(t, i as int, 3) == binary_at(t, i as int, 2));
    let mut lhs = AstComparison::Term(first);
    assert(view_comparison(lhs) == view_term(first));
    let mut j = j0;
    loop
        invariant
            t == view_tokens(toks@),
            t.len() == toks@.len(),
            i < j <= toks@.len(),
            binary_rest(t, view_comparison(lhs), j as int, 3) == binary_at(t, i as int, 3),
        decreases toks@.len() - j,
    {
        if j >= toks.len() {
            return Some((lhs, j));
        }
        assert(operand_at(t, j + 1, 3) == binary_at(t, j + 1, 2));
        proof {
            lemma_token_at(toks@, j as int);
            lemma_token_view(toks@[j as int]);
        }
        match &toks[j] {
            Token::Greater => match parse_term(toks, j + 1) {
                Some((rhs, k)) => {
                    lhs = AstComparison::Greater(Box::new(lhs), rhs);
                    j = k;
                },
                None => return None,
            },
            Token::GreaterEqual => match parse_term(toks, j + 1) {
                Some((rhs, k)) => {
                    lhs = AstComparison::GreaterEqual(Box::new(lhs), rhs);
                    j = k;
                },
                None => return None,
            },
            Token::Less => match parse_term(toks, j + 1) {
                Some((rhs, k)) => {
                    lhs = AstComparison::Less(Box::new(lhs), rhs);
                    j = k;
                },
                None => return None,
            },
            Token::LessEqual => match parse_term(toks, j + 1) {
                Some((rhs, k)) => {
                    lhs = AstComparison::LessEqual(Box::new(lhs), rhs);
                    j = k;
                },
                None => return None,
            },
            _ => return Some((lhs, j)),
        }
    }
}

#[verifier::spinoff_prover]
fn parse_equality(toks: &Vec<Token>, i: usize) -> (r: Option<(AstEquality, usize)>)
    ensures
        lift(r, |x: AstEquality| view_equality(x)) == binary_at(view_tokens(toks@), i as int, 4),
        advances(r, i, toks@.len()),
    decreases toks@.len() - i, 14int,
{
    let ghost t = view_tokens(toks@);
    if i >= toks.len() {
        return None;
    }
    let (first, j0) = match parse_comparison(toks, i) {
        Some(x) => x,
        None => return None,
    };
    assert(operand_at(t, i as int, 4) == binary_at(t, i as int, 3));
    let mut lhs = AstEquality::Comparison(first);
    assert(view_equality(lhs) == view_comparison(first));
    let mut j = j0;
    loop
        invariant
            t == view_tokens(toks@),
            t.len() == toks@.len(),
            i < j <= toks@.len(),
            binary_rest(t, view_equality(lhs), j as int, 4) == binary_at(t, i as int, 4),
        decreases toks@.len() - j,
    {
        if j >= toks.len() {
            return Some((lhs, j));
        }
        assert(operand_at(t, j + 1, 4) == binary_at(t, j + 1, 3));
        proof {
            lemma_token_at(toks@, j as int);
            lemma_token_view(toks@[j as int]);
        }
        match &toks[j] {
            Token::EqualEqual => match parse_comparison(toks, j + 1) {
                Some((rhs, k)) => {
                    lhs = AstEquality::Equal(Box::new(lhs), rhs);
                    j = k;
                },
                None => return None,
            },
            Token::BangEqual => match parse_comparison(toks, j + 1) {
                Some((rhs, k)) => {
                    lhs = AstEquality::NotEqual(Box::new(lhs), rhs);
                    j = k;
                },
                None => return None,
            },
            _ => return Some((lhs, j)),
        }
    }
}

#[verifier::spinoff_prover]
fn parse_logic_and(toks: &Vec<Token>, i: usize) -> (r: Option<(AstLogicAnd, usize)>)
    ensures
        lift(r, |a: AstLogicAnd| view_logic_and(a)) == logic_and_at(view_tokens(toks@), i as int),
        advances(r, i, toks@.len()),
    decreases toks@.len() - i, 20int,
{
    if i >= toks.len() {
        return None;
    }
    let (equality, j) = match parse_equality(toks, i) {
        Some(x) => x,
        None => return None,
    };
    if j < toks.len() {
        proof {
            lemma_token_at(toks@, j as int);
            lemma_token_view(toks@[j as int]);
        }
    }
    if j < toks.len() && matches!(toks[j], Token::And) {
        match parse_logic_and(toks, j + 1) {
            Some((tail, k)) => Some((AstLogicAnd::And(equality, Some(Box::new(tail))), k)),
            None => None,
        }
    } else {
        Some((AstLogicAnd::And(equality, None), j))
    }
}

#[verifier::spinoff_prover]
fn parse_logic_or(toks: &Vec<Token>, i: usize) -> (r: Option<(AstLogicOr, usize)>)
    ensures
        lift(r, |o: AstLogicOr| view_logic_or(o)) == logic_or_at(view_tokens(toks@), i as int),
        advances(r, i, toks@.len()),
    decreases toks@.len() - i, 21int,
{
    if i >= toks.len() {
        return None;
    }
    let (logic_and, j) = match parse_logic_and(toks, i) {
        Some(x) => x,
        None => return None,
    };
    if j < toks.len() {
        proof {
            lemma_token_at(toks@, j as int);
            lemma_token_view(toks@[j as int]);
        }
    }
    if j < toks.len() && matches!(toks[j], Token::Or) {
        match parse_logic_or(toks, j + 1) {
            Some((tail, k)) => Some((AstLogicOr::Or(logic_and, Some(Box::new(tail))), k)),
            None => None,
        }
    } else {
        Some((AstLogicOr::Or(logic_and, None), j))
    }
}

#[verifier::spinoff_prover]
fn target_primary(p: &AstPrimary) -> (r: Option<String>)
    ensures
        match view_primary(*p) {
            SpecExpr::Id(x) => r matches Some(s) && s@ == x,
            _ => r is None,
        },
{
    match p {
        AstPrimary::Id(identifier) => Some(identifier.clone()),
        _ => None,
    }
}

#[verifier::spinoff_prover]
fn target_call(c: &AstCall) -> (r: Option<String>)
    ensures
        match view_call(*c) {
            SpecExpr::Id(x) => r matches Some(s) && s@ == x,
            _ => r is None,
        },
{
    match c {
        AstCall::Primary(p) => target_primary(p),
        _ => None,
    }
}

#[verifier::spinoff_prover]
fn target_unary(u: &AstUnary) -> (r: Option<String>)
    ensures
        match view_unary(*u) {
            SpecExpr::Id(x) => r matches Some(s) && s@ == x,
            _ => r is None,
        },
{
    match u {
        AstUnary::Call(c) => target_call(c),
        _ => None,
    }
}

#[verifier::spinoff_prover]
fn target_factor(f: &AstFactor) -> (r: Option<String>)
    ensures
        match view_factor(*f) {
            SpecExpr::Id(x) => r matches Some(s) && s@ == x,
            _ => r is None,
        },
{
    match f {
        AstFactor::Unary(u) => target_unary(u),
        _ => None,
    }
}

#[verifier::spinoff_prover]
fn target_term(t: &AstTerm) -> (r: Option<String>)
    ensures
        match view_term(*t) {
            SpecExpr::Id(x) => r matches Some(s) && s@ == x,
            _ => r is None,
        },
{
    match t {
        AstTerm::Factor(f) => target_factor(f),
        _ => None,
    }
}

#[verifier::spinoff_prover]
fn target_comparison(c: &AstComparison) -> (r: Option<String>)
    ensures
        match view_comparison(*c) {
            SpecExpr::Id(x) => r matches Some(s) && s@ == x,
            _ => r is None,
        },
{
    match c {
        AstComparison::Term(t) => target_term(t),
        _ => None,
    }
}

#[verifier::spinoff_prover]
fn target_equality(e: &AstEquality) -> (r: Option<String>)
    ensures
        match view_equality(*e) {
            SpecExpr::Id(x) => r matches Some(s) && s@ == x,
            _ => r is None,
        },
{
    match e {
        AstEquality::Comparison(c) => target_comparison(c),
        _ => None,
    }
}

#[verifier::spinoff_prover]
fn target_logic_and(a: &AstLogicAnd) -> (r: Option<String>)
    ensures
        match view_logic_and(*a) {
            SpecExpr::Id(x) => r matches Some(s) && s@ == x,
            _ => r is None,
        },
{
    match a {
        AstLogicAnd::And(e, None) => target_equality(e),
        _ => None,
    }
}

/// The identifier, when `target` is nothing but an identifier.
#[verifier::spinoff_prover]
fn assignment_target(target: &AstLogicOr) -> (r: Option<String>)
    ensures
        match view_logic_or(*target) {
            SpecExpr::Id(x) => r matches Some(s) && s@ == x,
            _ => r is None,
        },
{
    match target {
        AstLogicOr::Or(a, None) => target_logic_and(a),
        _ => None,
    }
}

/// assignment → IDENTIFIER "=" assignment | logic_or; an `=` after anything
/// but a bare identifier is an invalid assignment target.
#[verifier::spinoff_prover]
fn parse_assignment(toks: &Vec<Token>, i: usize) -> (r: Option<(AstAssignment, usize)>)
    ensures
        lift(r, |a: AstAssignment| view_assignment(a)) == assignment_at(
            view_tokens(toks@),
            i as int,
        ),
        advances(r, i, toks@.len()),
    decreases toks@.len() - i, 22int,
{
    if i >= toks.len() {
        return None;
    }
    let (logic_or, j) = match parse_logic_or(toks, i) {
        Some(x) => x,
        None => return None,
    };
    if j < toks.len() {
        proof {
            lemma_token_at(toks@, j as int);
            lemma_token_view(toks@[j as int]);
        }
    }
    if j < toks.len() && matches!(toks[j], Token::Equal) {
        match assignment_target(&logic_or) {
            Some(identifier) => match parse_assignment(toks, j + 1) {
                Some((value, k)) => {
                    proof {
                        lemma_view_assign(identifier, value);
                    }
                    Some((AstAssignment::Assign(identifier, Box::new(value)), k))
                },
                None => None,
            },
            None => None,
        }
    } else {
        Some((AstAssignment::LogicOr(logic_or), j))
    }
}

#[verifier::spinoff_prover]
fn parse_expr(toks: &Vec<Token>, i: usize) -> (r: Option<(AstExpression, usize)>)
    ensures
        lift(r, |e: AstExpression| view_expr(e)) == expr_at(view_tokens(toks@), i as int),
        advances(r, i, toks@.len()),
    decreases toks@.len() - i, 23int,
{
    if i >= toks.len() {
        return None;
    }
    match parse_assignment(toks, i) {
        Some((a, j)) => {
            proof {
                lemma_view_expr(a);
            }
            Some((AstExpression::Assignment(a), j))
        },
        None => None,
    }
}


/// The mathematical form of an optional declaration.
pub open spec fn view_opt_decl(d: Option<AstDeclaration>) -> Option<SpecDecl> {
    match d {
        Some(x) => Some(view_decl(x)),
        None => None,
    }
}

/// The mathematical form of an optional expression.
pub open spec fn view_opt_expr(e: Option<AstExpression>) -> Option<SpecExpr> {
    match e {
        Some(x) => Some(view_expr(x)),
        None => None,
    }
}

/// Build a synthetic `true` expression for an omitted `for`-loop condition,
/// threading the literal through every precedence layer.
#[verifier::spinoff_prover]
pub fn make_true_expr() -> (e: AstExpression)
    ensures
        view_expr(e) == SpecExpr::True,
{
    let primary = AstPrimary::True;
    let call = AstCall::Primary(primary);
    let unary = AstUnary::Call(call);
    let factor = AstFactor::Unary(unary);
    let term = AstTerm::Factor(factor);
    let comparison = AstComparison::Term(term);
    let equality = AstEquality::Comparison(comparison);
    let logic_and = AstLogicAnd::And(equality, None);
    let logic_or = AstLogicOr::Or(logic_and, None);
    let assignment = AstAssignment::LogicOr(logic_or);
    assert(view_primary(primary) == SpecExpr::True);
    assert(view_call(call) == SpecExpr::True);
    assert(view_unary(unary) == SpecExpr::True);
    assert(view_factor(factor) == SpecExpr::True);
    assert(view_term(term) == SpecExpr::True);
    assert(view_comparison(comparison) == SpecExpr::True);
    assert(view_equality(equality) == SpecExpr::True);
    assert(view_logic_and(logic_and) == SpecExpr::True);
    assert(view_logic_or(logic_or) == SpecExpr::True);
    assert(view_assignment(assignment) == SpecExpr::True);
    proof {
        lemma_view_expr(assignment);
    }
    AstExpression::Assignment(assignment)
}

/// Parse a brace-delimited block of declarations, the opening `{` already
/// consumed; consumes through the closing `}`.
#[verifier::spinoff_prover]
fn parse_block_decls(toks: &Vec<Token>, i: usize) -> (r: Option<(Vec<AstDeclaration>, usize)>)
    ensures
        lift(r, |ds: Vec<AstDeclaration>| view_decls(ds@)) == block_at(view_tokens(toks@), i as int),
        advances(r, i, toks@.len()),
    decreases toks@.len() - i, 61int,
{
    let ghost t = view_tokens(toks@);
    let mut decls: Vec<AstDeclaration> = Vec::new();
    if i >= toks.len() {
        return None;
    }
    let mut j = i;
    assert(view_decls(decls@) =~= seq![]);
    loop
        invariant
            t == view_tokens(toks@),
            t.len() == toks@.len(),
            i <= j <= toks@.len(),
            block_list(t, j as int, view_decls(decls@)) == block_at(t, i as int),
        decreases toks@.len() - j,
    {
        if j >= toks.len() {
            return None;
        }
        proof {
            lemma_token_at(toks@, j as int);
            lemma_token_view(toks@[j as int]);
        }
        if matches!(toks[j], Token::RBrace) {
            return Some((decls, j + 1));
        }
        match parse_declaration(toks, j) {
            Some((d, k)) => {
                proof {
                    lemma_view_decls_push(decls@, d);
                }
                decls.push(d);
                j = k;
            },
            None => return None,
        }
    }
}

/// The initializer clause of a `for`.
#[verifier::spinoff_prover]
fn parse_for_init(toks: &Vec<Token>, i: usize) -> (r: Option<(Option<AstDeclaration>, usize)>)
    ensures
        lift(r, |d: Option<AstDeclaration>| view_opt_decl(d)) == for_init_at(
            view_tokens(toks@),
            i as int,
        ),
        advances(r, i, toks@.len()),
    decreases toks@.len() - i, 57int,
{
    if i >= toks.len() {
        return None;
    }
    proof {
        lemma_token_at(toks@, i as int);
        lemma_token_view(toks@[i as int]);
    }
    match &toks[i] {
        Token::Semicolon => Some((None, i + 1)),
        Token::Var => match parse_declaration(toks, i) {
            Some((d, j)) => Some((Some(d), j)),
            None => None,
        },
        _ => match parse_expr(toks, i) {
            Some((e, j)) => {
                if j < toks.len() {
                    proof {
                        lemma_token_at(toks@, j as int);
                        lemma_token_view(toks@[j as int]);
                    }
                }
                if j < toks.len() && matches!(toks[j], Token::Semicolon) {
                    proof {
                        lemma_view_stmt_expr(e);
                        lemma_view_decl_stmt(AstStatement::Expr(e));
                    }
                    Some((Some(AstDeclaration::Statement(AstStatement::Expr(e))), j + 1))
                } else {
                    None
                }
            },
            None => None,
        },
    }
}

/// The condition clause of a `for`; an empty one stands for `true`.
#[verifier::spinoff_prover]
fn parse_for_cond(toks: &Vec<Token>, i: usize) -> (r: Option<(AstExpression, usize)>)
    ensures
        lift(r, |e: AstExpression| view_expr(e)) == for_cond_at(view_tokens(toks@), i as int),
        advances(r, i, toks@.len()),
    decreases toks@.len() - i, 24int,
{
    if i >= toks.len() {
        return None;
    }
    proof {
        lemma_token_at(toks@, i as int);
        lemma_token_view(toks@[i as int]);
    }
    if matches!(toks[i], Token::Semicolon) {
        return Some((make_true_expr(), i + 1));
    }
    match parse_expr(toks, i) {
        Some((e, j)) => {
            if j < toks.len() {
                proof {
                    lemma_token_at(toks@, j as int);
                    lemma_token_view(toks@[j as int]);
                }
            }
            if j < toks.len() && matches!(toks[j], Token::Semicolon) {
                Some((e, j + 1))
            } else {
                None
            }
        },
        None => None,
    }
}

/// The increment clause of a `for`.
#[verifier::spinoff_prover]
fn parse_for_incr(toks: &Vec<Token>, i: usize) -> (r: Option<(Option<AstExpression>, usize)>)
    ensures
        lift(r, |e: Option<AstExpression>| view_opt_expr(e)) == for_incr_at(
            view_tokens(toks@),
            i as int,
        ),
        advances(r, i, toks@.len()),
    decreases toks@.len() - i, 24int,
{
    if i >= toks.len() {
        return None;
    }
    proof {
        lemma_token_at(toks@, i as int);
        lemma_token_view(toks@[i as int]);
    }
    if matches!(toks[i], Token::RParens) {
        return Some((None, i + 1));
    }
    match parse_expr(toks, i) {
        Some((e, j)) => {
            if j < toks.len() {
                proof {
                    lemma_token_at(toks@, j as int);
                    lemma_token_view(toks@[j as int]);
                }
            }
            if j < toks.len() && matches!(toks[j], Token::RParens) {
                Some((Some(e), j + 1))
            } else {
                None
            }
        },
        None => None,
    }
}


/// The statement that a `for` loop stands for:
/// `{ init; while (cond) { body; inc; } }`.
#[verifier::spinoff_prover]
fn desugar(
    initializer: Option<AstDeclaration>,
    condition: AstExpression,
    increment: Option<AstExpression>,
    body: AstStatement,
) -> (st: AstStatement)
    ensures
        view_stmt(st) == desugar_for(
            view_opt_decl(initializer),
            view_expr(condition),
            view_opt_expr(increment),
            view_stmt(body),
        ),
{
    let ghost vinit = view_opt_decl(initializer);
    let ghost vcond = view_expr(condition);
    let while_body = loop_body(increment, body);
    let ghost vwhile_body = view_stmt(while_body);
    proof {
        lemma_view_stmt_while(condition, while_body);
    }
    let while_stmt = AstStatement::While(condition, Box::new(while_body));
    proof {
        lemma_view_decl_stmt(while_stmt);
    }
    let looped = AstDeclaration::Statement(while_stmt);
    let ghost vlooped = SpecDecl::Stmt(SpecStmt::While(vcond, Box::new(vwhile_body)));
    assert(view_decl(looped) == vlooped);
    let decls = match initializer {
        Some(init) => {
            let ghost gi = init;
            let ghost gl = looped;
            let decls = vec![init, looped];
            proof {
                lemma_view_decls2(decls@, gi, gl);
            }
            decls
        },
        None => {
            let ghost gl = looped;
            let decls = vec![looped];
            proof {
                lemma_view_decls1(decls@, gl);
            }
            decls
        },
    };
    proof {
        lemma_view_stmt_block(decls);
    }
    AstStatement::Block(decls)
}

/// The body of the loop that a `for` stands for: the `for` body followed by
/// the increment, when there is one.
#[verifier::spinoff_prover]
fn loop_body(increment: Option<AstExpression>, body: AstStatement) -> (st: AstStatement)
    ensures
        view_stmt(st) == match view_opt_expr(increment) {
            Some(inc) => SpecStmt::Block(
                seq![SpecDecl::Stmt(view_stmt(body)), SpecDecl::Stmt(SpecStmt::Expr(inc))],
            ),
            None => view_stmt(body),
        },
{
    match increment {
        Some(inc) => {
            proof {
                lemma_view_decl_stmt(body);
                lemma_view_stmt_expr(inc);
                lemma_view_decl_stmt(AstStatement::Expr(inc));
            }
            let ghost d1 = AstDeclaration::Statement(body);
            let ghost d2 = AstDeclaration::Statement(AstStatement::Expr(inc));
            let pair = vec![AstDeclaration::Statement(body), AstDeclaration::Statement(AstStatement::Expr(inc))];
            proof {
                lemma_view_block2(pair, d1, d2);
            }
            AstStatement::Block(pair)
        },
        None => body,
    }
}

/// Parse a `for` statement, the `for` already consumed, and desugar it into
/// a block holding the initializer and a `while` loop:
/// `{ init; while (cond) { body; inc; } }`.
#[verifier::spinoff_prover]
fn parse_for_and_desugar(toks: &Vec<Token>, i: usize) -> (r: Option<(AstStatement, usize)>)
    ensures
        lift(r, |st: AstStatement| view_stmt(st)) == for_at(view_tokens(toks@), i as int),
        advances(r, i, toks@.len()),
    decreases toks@.len() - i, 45int,
{
    let ghost t = view_tokens(toks@);
    if i >= toks.len() {
        return None;
    }
    proof {
        lemma_token_at(toks@, i as int);
        lemma_token_view(toks@[i as int]);
    }
    if !matches!(toks[i], Token::LParens) {
        return None;
    }
    let (initializer, a) = match parse_for_init(toks, i + 1) {
        Some(x) => x,
        None => return None,
    };
    let (condition, b) = match parse_for_cond(toks, a) {
        Some(x) => x,
        None => return None,
    };
    let (increment, c) = match parse_for_incr(toks, b) {
        Some(x) => x,
        None => return None,
    };
    let (body, d) = match parse_statement(toks, c) {
        Some(x) => x,
        None => return None,
    };
    Some((desugar(initializer, condition, increment, body), d))
}

/// Parse a statement whose first token is at `i`.
#[verifier::spinoff_prover]
fn parse_statement(toks: &Vec<Token>, i: usize) -> (r: Option<(AstStatement, usize)>)
    ensures
        lift(r, |st: AstStatement| view_stmt(st)) == stmt_at(view_tokens(toks@), i as int),
        advances(r, i, toks@.len()),
    decreases toks@.len() - i, 51int,
{
    if i >= toks.len() {
        return None;
    }
    proof {
        lemma_token_at(toks@, i as int);
        lemma_token_view(toks@[i as int]);
    }
    match &toks[i] {
        Token::Print => parse_print(toks, i),
        Token::LBrace => parse_block(toks, i),
        Token::If => parse_if(toks, i),
        Token::While => parse_while(toks, i),
        Token::For => parse_for_and_desugar(toks, i + 1),
        _ => parse_expr_statement(toks, i),
    }
}

/// A `print` statement whose `print` is at `i`.
#[verifier::spinoff_prover]
fn parse_print(toks: &Vec<Token>, i: usize) -> (r: Option<(AstStatement, usize)>)
    requires
        i < toks@.len(),
        toks@[i as int] is Print,
    ensures
        lift(r, |st: AstStatement| view_stmt(st)) == stmt_at(view_tokens(toks@), i as int),
        advances(r, i, toks@.len()),
    decreases toks@.len() - i, 49int,
{
    let n = toks.len();
    proof {
        lemma_token_at(toks@, i as int);
        lemma_token_view(toks@[i as int]);
    }
    match parse_expr(toks, i + 1) {
        Some((expr, j)) => {
            if j < n {
                proof {
                    lemma_token_at(toks@, j as int);
                    lemma_token_view(toks@[j as int]);
                }
            }
            if j < n && matches!(toks[j], Token::Semicolon) {
                proof {
                    lemma_view_stmt_expr(expr);
                }
                Some((AstStatement::Print(expr), j + 1))
            } else {
                None
            }
        },
        None => None,
    }
}

/// A block statement whose `{` is at `i`.
#[verifier::spinoff_prover]
fn parse_block(toks: &Vec<Token>, i: usize) -> (r: Option<(AstStatement, usize)>)
    requires
        i < toks@.len(),
        toks@[i as int] is LBrace,
    ensures
        lift(r, |st: AstStatement| view_stmt(st)) == stmt_at(view_tokens(toks@), i as int),
        advances(r, i, toks@.len()),
    decreases toks@.len() - i, 49int,
{
    let n = toks.len();
    proof {
        lemma_token_at(toks@, i as int);
        lemma_token_view(toks@[i as int]);
    }
    match parse_block_decls(toks, i + 1) {
        Some((decls, j)) => {
            proof {
                lemma_view_stmt_block(decls);
            }
            Some((AstStatement::Block(decls), j))
        },
        None => None,
    }
}

/// An expression statement whose first token is at `i`.
#[verifier::spinoff_prover]
fn parse_expr_statement(toks: &Vec<Token>, i: usize) -> (r: Option<(AstStatement, usize)>)
    requires
        i < toks@.len(),
        !(toks@[i as int] is Print),
        !(toks@[i as int] is LBrace),
        !(toks@[i as int] is If),
        !(toks@[i as int] is While),
        !(toks@[i as int] is For),
    ensures
        lift(r, |st: AstStatement| view_stmt(st)) == stmt_at(view_tokens(toks@), i as int),
        advances(r, i, toks@.len()),
    decreases toks@.len() - i, 49int,
{
    let n = toks.len();
    proof {
        lemma_token_at(toks@, i as int);
        lemma_token_view(toks@[i as int]);
    }
    match parse_expr(toks, i) {
        Some((expr, j)) => {
            if j < n {
                proof {
                    lemma_token_at(toks@, j as int);
                    lemma_token_view(toks@[j as int]);
                }
            }
            if j < n && matches!(toks[j], Token::Semicolon) {
                proof {
                    lemma_view_stmt_expr(expr);
                }
                Some((AstStatement::Expr(expr), j + 1))
            } else {
                None
            }
        },
        None => None,
    }
}

/// An `if` statement whose `if` is at `i`.
#[verifier::spinoff_prover]
fn parse_if(toks: &Vec<Token>, i: usize) -> (r: Option<(AstStatement, usize)>)
    requires
        i < toks@.len(),
        toks@[i as int] is If,
    ensures
        lift(r, |st: AstStatement| view_stmt(st)) == stmt_at(view_tokens(toks@), i as int),
        advances(r, i, toks@.len()),
    decreases toks@.len() - i, 49int,
{
    let ghost t = view_tokens(toks@);
    let n = toks.len();
    proof {
        lemma_token_at(toks@, i as int);
        lemma_token_view(toks@[i as int]);
    }
    if i + 1 < n {
        proof {
            lemma_token_at(toks@, i + 1);
            lemma_token_view(toks@[i + 1]);
        }
    }
    if !(i + 1 < n && matches!(toks[i + 1], Token::LParens)) {
        return None;
    }
    let (condition, j) = match parse_expr(toks, i + 2) {
        Some(x) => x,
        None => return None,
    };
    if j < n {
        proof {
            lemma_token_at(toks@, j as int);
            lemma_token_view(toks@[j as int]);
        }
    }
    if !(j < n && matches!(toks[j], Token::RParens)) {
        return None;
    }
    let (then_branch, k) = match parse_statement(toks, j + 1) {
        Some(x) => x,
        None => return None,
    };
    if k < n {
        proof {
            lemma_token_at(toks@, k as int);
            lemma_token_view(toks@[k as int]);
        }
    }
    if k < n && matches!(toks[k], Token::Else) {
        match parse_statement(toks, k + 1) {
            Some((else_branch, m)) => {
                proof {
                    lemma_view_stmt_if(condition, then_branch, Some(Box::new(else_branch)));
                }
                Some((AstStatement::If(condition, Box::new(then_branch), Some(Box::new(else_branch))), m))
            },
            None => None,
        }
    } else {
        proof {
            lemma_view_stmt_if(condition, then_branch, None);
        }
        Some((AstStatement::If(condition, Box::new(then_branch), None), k))
    }
}

/// A `while` statement whose `while` is at `i`.
#[verifier::spinoff_prover]
fn parse_while(toks: &Vec<Token>, i: usize) -> (r: Option<(AstStatement, usize)>)
    requires
        i < toks@.len(),
        toks@[i as int] is While,
    ensures
        lift(r, |st: AstStatement| view_stmt(st)) == stmt_at(view_tokens(toks@), i as int),
        advances(r, i, toks@.len()),
    decreases toks@.len() - i, 49int,
{
    let ghost t = view_tokens(toks@);
    let n = toks.len();
    proof {
        lemma_token_at(toks@, i as int);
        lemma_token_view(toks@[i as int]);
    }
    if i + 1 < n {
        proof {
            lemma_token_at(toks@, i + 1);
            lemma_token_view(toks@[i + 1]);
        }
    }
    if !(i + 1 < n && matches!(toks[i + 1], Token::LParens)) {
        return None;
    }
    let (condition, j) = match parse_expr(toks, i + 2) {
        Some(x) => x,
        None => return None,
    };
    if j < n {
        proof {
            lemma_token_at(toks@, j as int);
            lemma_token_view(toks@[j as int]);
        }
    }
    if !(j < n && matches!(toks[j], Token::RParens)) {
        return None;
    }
    match parse_statement(toks, j + 1) {
        Some((body, k)) => {
            proof {
                lemma_view_stmt_while(condition, body);
            }
            Some((AstStatement::While(condition, Box::new(body)), k))
        },
        None => None,
    }
}

/// Parse a comma-separated parameter list, the opening `(` already consumed;
/// consumes through the closing `)`. The [`MAX_ARGUMENTS`] limit is enforced
/// by the caller.
#[verifier::spinoff_prover]
pub fn parse_parameters(toks: &Vec<Token>, i: usize) -> (r: Option<(Vec<String>, usize)>)
    ensures
        lift(r, |ps: Vec<String>| view_names(ps@)) == params_at(view_tokens(toks@), i as int),
        advances(r, i, toks@.len()),
{
    let ghost t = view_tokens(toks@);
    let mut params: Vec<String> = Vec::new();
    if i >= toks.len() {
        return None;
    }
    proof {
        lemma_token_at(toks@, i as int);
        lemma_token_view(toks@[i as int]);
    }
    if matches!(toks[i], Token::RParens) {
        assert(view_names(params@) =~= seq![]);
        return Some((params, i + 1));
    }
    let mut j = i;
    assert(view_names(params@) =~= seq![]);
    loop
        invariant
            t == view_tokens(toks@),
            t.len() == toks@.len(),
            i <= j <= toks@.len(),
            params_list(t, j as int, view_names(params@)) == params_at(t, i as int),
        decreases toks@.len() - j,
    {
        if j >= toks.len() {
            return None;
        }
        proof {
            lemma_token_at(toks@, j as int);
            lemma_token_view(toks@[j as int]);
        }
        let name = match parse_id(&toks[j]) {
            Some(name) => name,
            None => return None,
        };
        let ghost before = params@;
        params.push(name);
        assert(view_names(params@) =~= view_names(before).push(name@));
        if j + 1 < toks.len() {
            proof {
                lemma_token_at(toks@, j + 1);
                lemma_token_view(toks@[j + 1]);
            }
        }
        if j + 1 < toks.len() && matches!(toks[j + 1], Token::Comma) {
            j = j + 2;
        } else if j + 1 < toks.len() && matches!(toks[j + 1], Token::RParens) {
            return Some((params, j + 2));
        } else {
            return None;
        }
    }
}

/// Parse a declaration whose first token is at `i`.
#[verifier::spinoff_prover]
#[verifier::rlimit(30)]
fn parse_declaration(toks: &Vec<Token>, i: usize) -> (r: Option<(AstDeclaration, usize)>)
    ensures
        lift(r, |d: AstDeclaration| view_decl(d)) == decl_at(view_tokens(toks@), i as int),
        advances(r, i, toks@.len()),
    decreases toks@.len() - i, 55int,
{
    let ghost t = view_tokens(toks@);
    if i >= toks.len() {
        return None;
    }
    let n = toks.len();
    proof {
        lemma_token_at(toks@, i as int);
        lemma_token_view(toks@[i as int]);
    }
    match &toks[i] {
        Token::Fun => {
            if n - i <= 2 {
                return None;
            }
            proof {
                lemma_token_at(toks@, i + 1);
                lemma_token_view(toks@[i + 1]);
                lemma_token_at(toks@, i + 2);
                lemma_token_view(toks@[i + 2]);
            }
            let name = match parse_id(&toks[i + 1]) {
                Some(name) => name,
                None => return None,
            };
            if !matches!(toks[i + 2], Token::LParens) {
                return None;
            }
            let (params, j) = match parse_parameters(toks, i + 3) {
                Some(x) => x,
                None => return None,
            };
            if params.len() > MAX_ARGUMENTS {
                return None;
            }
            if j < n {
                proof {
                    lemma_token_at(toks@, j as int);
                    lemma_token_view(toks@[j as int]);
                }
            }
            if !(j < n && matches!(toks[j], Token::LBrace)) {
                return None;
            }
            match parse_block_decls(toks, j + 1) {
                Some((body, k)) => {
                    proof {
                        lemma_view_decl_fun(name, params, body);
                    }
                    Some((AstDeclaration::FunDeclare { name, params, body: Rc::new(body) }, k))
                },
                None => None,
            }
        },
        Token::Var => {
            if n - i <= 2 {
                return None;
            }
            proof {
                lemma_token_at(toks@, i + 1);
                lemma_token_view(toks@[i + 1]);
                lemma_token_at(toks@, i + 2);
                lemma_token_view(toks@[i + 2]);
            }
            let identifier = match parse_id(&toks[i + 1]) {
                Some(name) => name,
                None => return None,
            };
            if !matches!(toks[i + 2], Token::Equal) {
                return None;
            }
            match parse_expr(toks, i + 3) {
                Some((initializer, j)) => {
                    if j < n {
                        proof {
                            lemma_token_at(toks@, j as int);
                            lemma_token_view(toks@[j as int]);
                        }
                    }
                    if j < n && matches!(toks[j], Token::Semicolon) {
                        proof {
                            lemma_view_decl_var(identifier, initializer);
                        }
                        Some((AstDeclaration::VarDeclare(identifier, initializer), j + 1))
                    } else {
                        None
                    }
                },
                None => None,
            }
        },
        _ => match parse_statement(toks, i) {
            Some((st, j)) => {
                proof {
                    lemma_view_decl_stmt(st);
                }
                Some((AstDeclaration::Statement(st), j))
            },
            None => None,
        },
    }
}


// Where a failed parse stops: each function below gives the index just past
// the tokens that the parser has read when the construct at `i` does not
// parse, as the `*_fail` functions of the grammar say.

/// The end of the chain of binary level `level` at `i`, if it parses.
#[verifier::spinoff_prover]
fn binary_end(toks: &Vec<Token>, i: usize, level: usize) -> (r: Option<usize>)
    requires
        1 <= level <= 4,
    ensures
        match binary_at(view_tokens(toks@), i as int, level as int) {
            Some((_, j)) => r == Some(j as usize) && i < j <= toks@.len(),
            None => r is None,
        },
{
    if level == 1 {
        match parse_factor(toks, i) {
            Some((_, j)) => Some(j),
            None => None,
        }
    } else if level == 2 {
        match parse_term(toks, i) {
            Some((_, j)) => Some(j),
            None => None,
        }
    } else if level == 3 {
        match parse_comparison(toks, i) {
            Some((_, j)) => Some(j),
            None => None,
        }
    } else {
        match parse_equality(toks, i) {
            Some((_, j)) => Some(j),
            None => None,
        }
    }
}

/// The end of the operand of binary level `level` at `i`, if it parses.
#[verifier::spinoff_prover]
fn operand_end(toks: &Vec<Token>, i: usize, level: usize) -> (r: Option<usize>)
    requires
        1 <= level <= 4,
    ensures
        match operand_at(view_tokens(toks@), i as int, level as int) {
            Some((_, j)) => r == Some(j as usize) && i < j <= toks@.len(),
            None => r is None,
        },
{
    if i >= toks.len() {
        return None;
    }
    if level == 1 {
        match parse_unary(toks, i) {
            Some((_, j)) => Some(j),
            None => None,
        }
    } else {
        binary_end(toks, i, level - 1)
    }
}

/// Whether the token at `j` is an operator of binary level `level`.
#[verifier::spinoff_prover]
fn has_op(toks: &Vec<Token>, j: usize, level: usize) -> (b: bool)
    requires
        1 <= level <= 4,
    ensures
        b == op_at(view_tokens(toks@), j as int, level as int) is Some,
        b ==> j < toks.len(),
{
    if j >= toks.len() {
        return false;
    }
    proof {
        lemma_token_at(toks@, j as int);
        lemma_token_view(toks@[j as int]);
    }
    let k = &toks[j];
    if level == 1 {
        matches!(k, Token::Slash) || matches!(k, Token::Star)
    } else if level == 2 {
        matches!(k, Token::Minus) || matches!(k, Token::Plus)
    } else if level == 3 {
        matches!(k, Token::Greater) || matches!(k, Token::GreaterEqual) || matches!(k, Token::Less)
            || matches!(k, Token::LessEqual)
    } else {
        matches!(k, Token::EqualEqual) || matches!(k, Token::BangEqual)
    }
}

/// Whether the token at `j` exists and is the one that `pick` names
/// (0 `;`, 1 `)`, 2 `,`, 3 `=`, 4 `and`, 5 `or`, 6 `else`, 7 `(`, 8 `{`, 9 `}`).
#[verifier::spinoff_prover]
fn token_is(toks: &Vec<Token>, j: usize, pick: u8) -> (b: bool)
    ensures
        b == is_at(view_tokens(toks@), j as int, kind_of(pick)),
        b ==> j < toks.len(),
{
    if j >= toks.len() {
        return false;
    }
    proof {
        lemma_token_at(toks@, j as int);
        lemma_token_view(toks@[j as int]);
    }
    let k = &toks[j];
    match pick {
        0 => matches!(k, Token::Semicolon),
        1 => matches!(k, Token::RParens),
        2 => matches!(k, Token::Comma),
        3 => matches!(k, Token::Equal),
        4 => matches!(k, Token::And),
        5 => matches!(k, Token::Or),
        6 => matches!(k, Token::Else),
        7 => matches!(k, Token::LParens),
        8 => matches!(k, Token::LBrace),
        _ => matches!(k, Token::RBrace),
    }
}

/// The punctuation or keyword token that `token_is` checks for.
pub open spec fn kind_of(pick: u8) -> SpecToken {
    if pick == 0 {
        Token::Semicolon
    } else if pick == 1 {
        Token::RParens
    } else if pick == 2 {
        Token::Comma
    } else if pick == 3 {
        Token::Equal
    } else if pick == 4 {
        Token::And
    } else if pick == 5 {
        Token::Or
    } else if pick == 6 {
        Token::Else
    } else if pick == 7 {
        Token::LParens
    } else if pick == 8 {
        Token::LBrace
    } else {
        Token::RBrace
    }
}

#[verifier::spinoff_prover]
fn fail_primary(toks: &Vec<Token>, i: usize) -> (k: usize)
    ensures
        k == primary_fail(view_tokens(toks@), i as int),
        k == i || k <= toks@.len(),
        k >= i,
    decreases toks@.len() - i, 0int,
{
    if i >= toks.len() {
        return i;
    }
    proof {
        lemma_token_at(toks@, i as int);
        lemma_token_view(toks@[i as int]);
    }
    if matches!(toks[i], Token::LParens) {
        match parse_expr(toks, i + 1) {
            Some((_, j)) => if j < toks.len() {
                j + 1
            } else {
                j
            },
            None => fail_expr(toks, i + 1),
        }
    } else {
        i + 1
    }
}

#[verifier::spinoff_prover]
fn fail_args(toks: &Vec<Token>, i: usize) -> (k: usize)
    ensures
        k == args_fail(view_tokens(toks@), i as int),
        k == i || k <= toks@.len(),
        k >= i,
    decreases toks@.len() - i, 31int,
{
    if i >= toks.len() {
        return i;
    }
    if token_is(toks, i, 1) {
        i + 1
    } else {
        fail_args_list(toks, i)
    }
}

#[verifier::spinoff_prover]
fn fail_args_list(toks: &Vec<Token>, i: usize) -> (k: usize)
    ensures
        k == args_list_fail(view_tokens(toks@), i as int),
        k == i || k <= toks@.len(),
        k >= i,
    decreases toks@.len() - i, 30int,
{
    if i >= toks.len() {
        return i;
    }
    match parse_expr(toks, i) {
        Some((_, j)) => if token_is(toks, j, 2) {
            fail_args_list(toks, j + 1)
        } else {
            j
        },
        None => fail_expr(toks, i),
    }
}

#[verifier::spinoff_prover]
fn fail_call(toks: &Vec<Token>, i: usize) -> (k: usize)
    ensures
        k == call_fail(view_tokens(toks@), i as int),
        k == i || k <= toks@.len(),
        k >= i,
    decreases toks@.len() - i, 4int,
{
    if i >= toks.len() {
        return i;
    }
    match parse_primary(toks, i) {
        Some((_, j)) => fail_call_rest(toks, j),
        None => fail_primary(toks, i),
    }
}

#[verifier::spinoff_prover]
fn fail_call_rest(toks: &Vec<Token>, j: usize) -> (k: usize)
    ensures
        k == call_rest_fail(view_tokens(toks@), j as int),
        k == j || k <= toks@.len(),
        k >= j,
    decreases toks@.len() - j, 1int,
{
    if !token_is(toks, j, 7) {
        return j;
    }
    match parse_arguments(toks, j + 1) {
        Some((args, k)) => {
            proof {
                lemma_view_exprs_len(args@);
            }
            if args.len() <= MAX_ARGUMENTS {
                fail_call_rest(toks, k)
            } else {
                k
            }
        },
        None => fail_args(toks, j + 1),
    }
}

#[verifier::spinoff_prover]
fn fail_unary(toks: &Vec<Token>, i: usize) -> (k: usize)
    ensures
        k == unary_fail(view_tokens(toks@), i as int),
        k == i || k <= toks@.len(),
        k >= i,
    decreases toks@.len() - i, 5int,
{
    if i >= toks.len() {
        return i;
    }
    proof {
        lemma_token_at(toks@, i as int);
        lemma_token_view(toks@[i as int]);
    }
    if matches!(toks[i], Token::Bang) || matches!(toks[i], Token::Minus) {
        fail_unary(toks, i + 1)
    } else {
        fail_call(toks, i)
    }
}

#[verifier::spinoff_prover]
fn fail_operand(toks: &Vec<Token>, i: usize, level: usize) -> (k: usize)
    requires
        1 <= level <= 4,
    ensures
        k == operand_fail(view_tokens(toks@), i as int, level as int),
        k == i || k <= toks@.len(),
        k >= i,
    decreases toks@.len() - i, 5 + 2 * level,
{
    if i >= toks.len() {
        return i;
    }
    if level == 1 {
        fail_unary(toks, i)
    } else {
        fail_binary(toks, i, level - 1)
    }
}

#[verifier::spinoff_prover]
fn fail_binary(toks: &Vec<Token>, i: usize, level: usize) -> (k: usize)
    requires
        1 <= level <= 4,
    ensures
        k == binary_fail(view_tokens(toks@), i as int, level as int),
        k == i || k <= toks@.len(),
        k >= i,
    decreases toks@.len() - i, 6 + 2 * level,
{
    if i >= toks.len() {
        return i;
    }
    match operand_end(toks, i, level) {
        Some(j) => fail_binary_rest(toks, j, level),
        None => fail_operand(toks, i, level),
    }
}

#[verifier::spinoff_prover]
fn fail_binary_rest(toks: &Vec<Token>, j: usize, level: usize) -> (k: usize)
    requires
        1 <= level <= 4,
    ensures
        k == binary_rest_fail(view_tokens(toks@), j as int, level as int),
        k == j || k <= toks@.len(),
        k >= j,
    decreases toks@.len() - j, 5 + 2 * level,
{
    if !has_op(toks, j, level) {
        return j;
    }
    let n = toks.len();
    match operand_end(toks, j + 1, level) {
        Some(k) => fail_binary_rest(toks, k, level),
        None => fail_operand(toks, j + 1, level),
    }
}

#[verifier::spinoff_prover]
fn fail_logic_and(toks: &Vec<Token>, i: usize) -> (k: usize)
    ensures
        k == logic_and_fail(view_tokens(toks@), i as int),
        k == i || k <= toks@.len(),
        k >= i,
    decreases toks@.len() - i, 20int,
{
    if i >= toks.len() {
        return i;
    }
    match binary_end(toks, i, 4) {
        Some(j) => if token_is(toks, j, 4) {
            fail_logic_and(toks, j + 1)
        } else {
            j
        },
        None => fail_binary(toks, i, 4),
    }
}

#[verifier::spinoff_prover]
fn fail_logic_or(toks: &Vec<Token>, i: usize) -> (k: usize)
    ensures
        k == logic_or_fail(view_tokens(toks@), i as int),
        k == i || k <= toks@.len(),
        k >= i,
    decreases toks@.len() - i, 21int,
{
    if i >= toks.len() {
        return i;
    }
    match parse_logic_and(toks, i) {
        Some((_, j)) => if token_is(toks, j, 5) {
            fail_logic_or(toks, j + 1)
        } else {
            j
        },
        None => fail_logic_and(toks, i),
    }
}

#[verifier::spinoff_prover]
fn fail_assignment(toks: &Vec<Token>, i: usize) -> (k: usize)
    ensures
        k == assignment_fail(view_tokens(toks@), i as int),
        k == i || k <= toks@.len(),
        k >= i,
    decreases toks@.len() - i, 22int,
{
    if i >= toks.len() {
        return i;
    }
    match parse_logic_or(toks, i) {
        Some((lo, j)) => if token_is(toks, j, 3) {
            match assignment_target(&lo) {
                Some(_) => fail_assignment(toks, j + 1),
                None => j + 1,
            }
        } else {
            j
        },
        None => {
            let k = fail_logic_or(toks, i);
            if token_is(toks, k, 3) {
                k + 1
            } else {
                k
            }
        },
    }
}

#[verifier::spinoff_prover]
fn fail_expr(toks: &Vec<Token>, i: usize) -> (k: usize)
    ensures
        k == expr_fail(view_tokens(toks@), i as int),
        k == i || k <= toks@.len(),
        k >= i,
    decreases toks@.len() - i, 23int,
{
    if i >= toks.len() {
        return i;
    }
    fail_assignment(toks, i)
}

#[verifier::spinoff_prover]
fn fail_for_init(toks: &Vec<Token>, i: usize) -> (k: usize)
    ensures
        k == for_init_fail(view_tokens(toks@), i as int),
        k == i || k <= toks@.len(),
        k >= i,
    decreases toks@.len() - i, 57int,
{
    if i >= toks.len() {
        return i;
    }
    proof {
        lemma_token_at(toks@, i as int);
        lemma_token_view(toks@[i as int]);
    }
    if matches!(toks[i], Token::Semicolon) {
        i + 1
    } else if matches!(toks[i], Token::Var) {
        fail_declaration(toks, i)
    } else {
        match parse_expr(toks, i) {
            Some((_, j)) => j,
            None => fail_expr(toks, i),
        }
    }
}

#[verifier::spinoff_prover]
fn fail_for_cond(toks: &Vec<Token>, i: usize) -> (k: usize)
    ensures
        k == for_cond_fail(view_tokens(toks@), i as int),
        k == i || k <= toks@.len(),
        k >= i,
    decreases toks@.len() - i, 24int,
{
    if i >= toks.len() {
        return i;
    }
    if token_is(toks, i, 0) {
        i + 1
    } else {
        match parse_expr(toks, i) {
            Some((_, j)) => j,
            None => fail_expr(toks, i),
        }
    }
}

#[verifier::spinoff_prover]
fn fail_for_incr(toks: &Vec<Token>, i: usize) -> (k: usize)
    ensures
        k == for_incr_fail(view_tokens(toks@), i as int),
        k == i || k <= toks@.len(),
        k >= i,
    decreases toks@.len() - i, 24int,
{
    if i >= toks.len() {
        return i;
    }
    if token_is(toks, i, 1) {
        i + 1
    } else {
        match parse_expr(toks, i) {
            Some((_, j)) => j,
            None => fail_expr(toks, i),
        }
    }
}

#[verifier::spinoff_prover]
#[verifier::rlimit(40)]
fn fail_for(toks: &Vec<Token>, i: usize) -> (k: usize)
    ensures
        k == for_fail(view_tokens(toks@), i as int),
        k == i || k <= toks@.len(),
        k >= i,
    decreases toks@.len() - i, 45int,
{
    if !token_is(toks, i, 7) {
        return i;
    }
    let a = match parse_for_init(toks, i + 1) {
        Some((_, a)) => a,
        None => return fail_for_init(toks, i + 1),
    };
    let b = match parse_for_cond(toks, a) {
        Some((_, b)) => b,
        None => return fail_for_cond(toks, a),
    };
    let c = match parse_for_incr(toks, b) {
        Some((_, c)) => c,
        None => return fail_for_incr(toks, b),
    };
    fail_statement(toks, c)
}

#[verifier::spinoff_prover]
fn fail_block(toks: &Vec<Token>, i: usize) -> (k: usize)
    ensures
        k == block_fail(view_tokens(toks@), i as int),
        k == i || k <= toks@.len(),
        k >= i,
    decreases toks@.len() - i, 60int,
{
    if i >= toks.len() {
        return i;
    }
    if token_is(toks, i, 9) {
        i + 1
    } else {
        match parse_declaration(toks, i) {
            Some((_, j)) => fail_block(toks, j),
            None => fail_declaration(toks, i),
        }
    }
}

#[verifier::spinoff_prover]
fn fail_statement(toks: &Vec<Token>, i: usize) -> (k: usize)
    ensures
        k == stmt_fail(view_tokens(toks@), i as int),
        k == i || k <= toks@.len(),
        k >= i,
    decreases toks@.len() - i, 50int,
{
    if i >= toks.len() {
        return i;
    }
    proof {
        lemma_token_at(toks@, i as int);
        lemma_token_view(toks@[i as int]);
    }
    if matches!(toks[i], Token::LBrace) {
        fail_block(toks, i + 1)
    } else if matches!(toks[i], Token::If) {
        fail_if(toks, i)
    } else if matches!(toks[i], Token::While) {
        fail_while(toks, i)
    } else if matches!(toks[i], Token::For) {
        fail_for(toks, i + 1)
    } else {
        let start = if matches!(toks[i], Token::Print) {
            i + 1
        } else {
            i
        };
        match parse_expr(toks, start) {
            Some((_, j)) => if j < toks.len() {
                j + 1
            } else {
                j
            },
            None => fail_expr(toks, start),
        }
    }
}

#[verifier::spinoff_prover]
#[verifier::rlimit(60)]
fn fail_if(toks: &Vec<Token>, i: usize) -> (k: usize)
    requires
        i < toks.len(),
    ensures
        k == if_fail(view_tokens(toks@), i as int),
        k == i || k <= toks@.len(),
        k >= i,
    decreases toks@.len() - i, 49int,
{
    if !token_is(toks, i + 1, 7) {
        return i + 1;
    }
    match parse_expr(toks, i + 2) {
        Some((_, j)) => if token_is(toks, j, 1) {
            match stmt_end(toks, j + 1) {
                Some(k) => if token_is(toks, k, 6) {
                    fail_statement(toks, k + 1)
                } else {
                    k
                },
                None => fail_statement(toks, j + 1),
            }
        } else {
            j
        },
        None => fail_expr(toks, i + 2),
    }
}

/// The end of the statement at `i`, if it parses.
#[verifier::spinoff_prover]
fn stmt_end(toks: &Vec<Token>, i: usize) -> (r: Option<usize>)
    ensures
        match stmt_end_at(view_tokens(toks@), i as int) {
            Some(k) => r == Some(k as usize) && i < k <= toks@.len(),
            None => r is None,
        },
{
    proof {
        reveal(stmt_end_at);
    }
    match parse_statement(toks, i) {
        Some((_, k)) => Some(k),
        None => None,
    }
}

#[verifier::spinoff_prover]
fn fail_while(toks: &Vec<Token>, i: usize) -> (k: usize)
    requires
        i < toks.len(),
    ensures
        k == while_fail(view_tokens(toks@), i as int),
        k == i || k <= toks@.len(),
        k >= i,
    decreases toks@.len() - i, 49int,
{
    if !token_is(toks, i + 1, 7) {
        return i + 1;
    }
    match parse_expr(toks, i + 2) {
        Some((_, j)) => if token_is(toks, j, 1) {
            fail_statement(toks, j + 1)
        } else {
            j
        },
        None => fail_expr(toks, i + 2),
    }
}

#[verifier::spinoff_prover]
fn fail_parameters(toks: &Vec<Token>, i: usize) -> (k: usize)
    ensures
        k == params_fail(view_tokens(toks@), i as int),
        k == i || k <= toks@.len(),
        k >= i,
{
    if token_is(toks, i, 1) {
        return i + 1;
    }
    let mut j = i;
    while j < toks.len()
        invariant
            params_fail(view_tokens(toks@), i as int) == params_list_fail(view_tokens(toks@), j as int),
            j == i || j <= toks@.len(),
            j >= i,
        decreases toks@.len() - j,
    {
        proof {
            lemma_token_at(toks@, j as int);
            lemma_token_view(toks@[j as int]);
        }
        if matches!(toks[j], Token::Identifier(_)) && token_is(toks, j + 1, 2) {
            j = j + 2;
        } else {
            return j + 1;
        }
    }
    j
}

#[verifier::spinoff_prover]
#[verifier::rlimit(30)]
fn fail_declaration(toks: &Vec<Token>, i: usize) -> (k: usize)
    ensures
        k == decl_fail(view_tokens(toks@), i as int),
        k == i || k <= toks@.len(),
        k >= i,
    decreases toks@.len() - i, 55int,
{
    if i >= toks.len() {
        return i;
    }
    proof {
        lemma_token_at(toks@, i as int);
        lemma_token_view(toks@[i as int]);
    }
    if matches!(toks[i], Token::Fun) {
        if i + 1 >= toks.len() {
            return i + 1;
        }
        proof {
            lemma_token_at(toks@, i + 1);
            lemma_token_view(toks@[i + 1]);
        }
        if !matches!(toks[i + 1], Token::Identifier(_)) || !token_is(toks, i + 2, 7) {
            return i + 2;
        }
        match parse_parameters(toks, i + 3) {
            Some((ps, j)) => if ps.len() <= MAX_ARGUMENTS && token_is(toks, j, 8) {
                fail_block(toks, j + 1)
            } else {
                j
            },
            None => fail_parameters(toks, i + 3),
        }
    } else if matches!(toks[i], Token::Var) {
        if i + 1 >= toks.len() {
            return i + 1;
        }
        proof {
            lemma_token_at(toks@, i + 1);
            lemma_token_view(toks@[i + 1]);
        }
        if !matches!(toks[i + 1], Token::Identifier(_)) || i + 2 >= toks.len() {
            return i + 2;
        }
        if !token_is(toks, i + 2, 3) {
            return i + 3;
        }
        match parse_expr(toks, i + 3) {
            Some((_, j)) => if j < toks.len() {
                j + 1
            } else {
                j
            },
            None => fail_expr(toks, i + 3),
        }
    } else {
        fail_statement(toks, i)
    }
}

/// The top-level declaration at `i`: the grammar's `declaration`, kept
/// folded where a proof only needs to name it.
#[verifier::opaque]
pub open spec fn next_decl(t: Seq<SpecToken>, i: int) -> Option<(SpecDecl, int)> {
    decl_at(t, i)
}

/// The declarations of a program from index `i` on: one after another,
/// up to the end of the tokens or the first that does not parse.
pub open spec fn program_at(t: Seq<SpecToken>, i: int) -> Seq<SpecDecl>
    decreases t.len() - i,
{
    match next_decl(t, i) {
        Some((d, j)) => if i < j <= t.len() {
            seq![d] + program_at(t, j)
        } else {
            seq![d]
        },
        None => seq![],
    }
}


/// At the end of its tokens the grammar finds no declaration and a failed
/// declaration reads nothing, so a parser that has reached the end stays
/// there and keeps returning `None`.
#[verifier::spinoff_prover]
pub proof fn law_parser_stays_at_end(t: Seq<SpecToken>)
    ensures
        next_decl(t, t.len() as int) is None,
        decl_fail(t, t.len() as int) == t.len(),
        program_at(t, t.len() as int) == Seq::<SpecDecl>::empty(),
{
    reveal(next_decl);
}


/// A program is all of its declarations, in source order: the declaration
/// at `i`, whatever its kind, followed by the program after it; where no
/// declaration parses the program ends.
#[verifier::spinoff_prover]
pub proof fn law_program_declarations(t: Seq<SpecToken>, i: int)
    ensures
        match decl_at(t, i) {
            Some((d, j)) => i < j <= t.len() ==> program_at(t, i) == seq![d] + program_at(t, j),
            None => program_at(t, i) == Seq::<SpecDecl>::empty(),
        },
{
    reveal(next_decl);
}

/// The declaration that `parse` gives is the first that `parse_program`
/// gives, and `parse` gives none exactly when the program is empty.
#[verifier::spinoff_prover]
pub proof fn law_parse_first_of_program(t: Seq<SpecToken>)
    ensures
        match next_decl(t, 0) {
            Some((d, _)) => program_at(t, 0).len() >= 1 && program_at(t, 0)[0] == d,
            None => program_at(t, 0).len() == 0,
        },
{
}

/// A parser over a token sequence, yielding one top-level declaration at a
/// time.
pub struct Parser {
    tokens: Vec<Token>,
    pos: usize,
}

impl Parser {
    #[verifier::type_invariant]
    spec fn inv(self) -> bool {
        self.pos <= self.tokens@.len()
    }

    /// The tokens being parsed.
    pub closed spec fn tokens(self) -> Seq<SpecToken> {
        view_tokens(self.tokens@)
    }

    /// The index of the next token to parse.
    pub closed spec fn position(self) -> int {
        self.pos as int
    }

    /// Creates a parser at the start of `tokens`.
    #[verifier::spinoff_prover]
    pub fn new(tokens: Vec<Token>) -> (p: Parser)
        ensures
            p.tokens() == view_tokens(tokens@),
            p.position() == 0,
    {
        Parser { tokens, pos: 0 }
    }

    /// Parses the next top-level declaration.
    ///
    /// Returns `None` at the end of the tokens and on a parse error. After a
    /// parse error the parser stands just past the tokens it read before the
    /// error showed (see [`decl_fail`]), and a later call parses on from
    /// there.
    #[verifier::spinoff_prover]
    pub fn next(&mut self) -> (r: Option<Ast>)
        ensures
            final(self).tokens() == old(self).tokens(),
            old(self).position() <= final(self).position() <= final(self).tokens().len(),
            r is Some ==> old(self).position() < final(self).position(),
            match next_decl(old(self).tokens(), old(self).position()) {
                Some((d, j)) => r matches Some(a) && a@ == d && final(self).position() == j,
                None => r is None && final(self).position() == decl_fail(
                    old(self).tokens(),
                    old(self).position(),
                ),
            },
    {
        proof {
            use_type_invariant(&*self);
            reveal(next_decl);
        }
        match parse_declaration(&self.tokens, self.pos) {
            Some((declaration, j)) => {
                proof {
                    reveal(view_ast);
                }
                self.pos = j;
                Some(Ast::Declare(declaration))
            },
            None => {
                let k = fail_declaration(&self.tokens, self.pos);
                self.pos = k;
                None
            },
        }
    }

    /// Parses the remaining declarations, up to the end of the tokens or the
    /// first that does not parse.
    #[verifier::spinoff_prover]
    pub fn declarations(&mut self) -> (v: Vec<Ast>)
        ensures
            final(self).tokens() == old(self).tokens(),
            view_asts(v@) == program_at(old(self).tokens(), old(self).position()),
    {
        proof {
            use_type_invariant(&*self);
        }
        let ghost t = self.tokens();
        let ghost start = self.position();
        let mut v: Vec<Ast> = Vec::new();
        loop
            invariant
                self.tokens() == t,
                t == old(self).tokens(),
                start == old(self).position(),
                0 <= self.position() <= t.len(),
                view_asts(v@) + program_at(t, self.position()) == program_at(t, start),
            decreases t.len() - self.position(),
        {
            proof {
                use_type_invariant(&*self);
            }
            let ghost before = self.position();
            match self.next() {
                None => {
                    assert(view_asts(v@) =~= program_at(t, start));
                    return v;
                },
                Some(a) => {
                    let ghost old_v = v@;
                    v.push(a);
                    assert(view_asts(v@) =~= view_asts(old_v).push(a@));
                    assert(program_at(t, before) == seq![a@] + program_at(t, self.position()));
                    assert(view_asts(v@) + program_at(t, self.position()) =~= view_asts(old_v)
                        + program_at(t, before));
                },
            }
        }
    }
}

/// The mathematical form of a list of top-level declarations.
pub open spec fn view_asts(s: Seq<Ast>) -> Seq<SpecDecl> {
    s.map_values(|a: Ast| a@)
}

/// Parse a source string into its first top-level declaration.
///
/// Returns `None` on a parse error or an input without declarations.
#[verifier::spinoff_prover]
pub fn parse(input: &str) -> (r: Option<Ast>)
    ensures
        match next_decl(tokens_of(input@), 0) {
            Some((d, _)) => r matches Some(a) && a@ == d,
            None => r is None,
        },
{
    let mut parser = Parser::new(tokenize(input));
    parser.next()
}

/// Parse a whole source string: its declarations, up to the end or the first
/// that does not parse.
#[verifier::spinoff_prover]
pub fn parse_program(input: &str) -> (v: Vec<Ast>)
    ensures
        view_asts(v@) == program_at(tokens_of(input@), 0),
{
    let mut parser = Parser::new(tokenize(input));
    parser.declarations()
}

#[verifier::spinoff_prover]
pub proof fn lemma_view_call_call(c: AstCall, args: Vec<AstExpression>)
    ensures
        view_call(AstCall::Call(Box::new(c), args)) == SpecExpr::Call(
            Box::new(view_call(c)),
            view_exprs(args@),
        ),
{
    let v = view_call(AstCall::Call(Box::new(c), args));
    assert(v is Call);
}

#[verifier::spinoff_prover]
pub proof fn lemma_view_call_primary(p: AstPrimary)
    ensures
        view_call(AstCall::Primary(p)) == view_primary(p),
{
}

#[verifier::spinoff_prover]
pub proof fn lemma_view_assign(x: String, a: AstAssignment)
    ensures
        view_assignment(AstAssignment::Assign(x, Box::new(a))) == SpecExpr::Assign(
            x@,
            Box::new(view_assignment(a)),
        ),
{
    let v = view_assignment(AstAssignment::Assign(x, Box::new(a)));
    assert(v is Assign);
}

#[verifier::spinoff_prover]
pub proof fn lemma_view_expr(a: AstAssignment)
    ensures
        view_expr(AstExpression::Assignment(a)) == view_assignment(a),
{
}

#[verifier::spinoff_prover]
pub proof fn lemma_view_stmt_expr(e: AstExpression)
    ensures
        view_stmt(AstStatement::Expr(e)) == SpecStmt::Expr(view_expr(e)),
        view_stmt(AstStatement::Print(e)) == SpecStmt::Print(view_expr(e)),
{
    let v = view_stmt(AstStatement::Expr(e));
    assert(v is Expr);
    let w = view_stmt(AstStatement::Print(e));
    assert(w is Print);
}


#[verifier::spinoff_prover]
pub proof fn lemma_view_stmt_block(ds: Vec<AstDeclaration>)
    ensures
        view_stmt(AstStatement::Block(ds)) == SpecStmt::Block(view_decls(ds@)),
{
    let v = view_stmt(AstStatement::Block(ds));
    assert(v is Block);
    assert(view_block(ds) == view_decls(ds@));
}

#[verifier::spinoff_prover]
pub proof fn lemma_view_stmt_if(
    c: AstExpression,
    th: AstStatement,
    el: Option<Box<AstStatement>>,
)
    ensures
        view_stmt(AstStatement::If(c, Box::new(th), el)) == SpecStmt::If(
            view_expr(c),
            Box::new(view_stmt(th)),
            match el {
                Some(b) => Some(Box::new(view_stmt(*b))),
                None => None,
            },
        ),
{
    let v = view_stmt(AstStatement::If(c, Box::new(th), el));
    assert(v is If);
    let w = view_else(el);
    assert(w is Some <==> el is Some);
}

#[verifier::spinoff_prover]
pub proof fn lemma_view_stmt_while(c: AstExpression, body: AstStatement)
    ensures
        view_stmt(AstStatement::While(c, Box::new(body))) == SpecStmt::While(
            view_expr(c),
            Box::new(view_stmt(body)),
        ),
{
    let v = view_stmt(AstStatement::While(c, Box::new(body)));
    assert(v is While);
}

#[verifier::spinoff_prover]
pub proof fn lemma_view_decl_var(x: String, e: AstExpression)
    ensures
        view_decl(AstDeclaration::VarDeclare(x, e)) == SpecDecl::Var(x@, view_expr(e)),
{
    let v = view_decl(AstDeclaration::VarDeclare(x, e));
    assert(v is Var);
}

#[verifier::spinoff_prover]
pub proof fn lemma_view_decl_stmt(st: AstStatement)
    ensures
        view_decl(AstDeclaration::Statement(st)) == SpecDecl::Stmt(view_stmt(st)),
{
    let v = view_decl(AstDeclaration::Statement(st));
    assert(v is Stmt);
}

#[verifier::spinoff_prover]
pub proof fn lemma_view_decl_fun(name: String, params: Vec<String>, body: Vec<AstDeclaration>)
    ensures
        view_decl(AstDeclaration::FunDeclare { name, params, body: Rc::new(body) })
            == SpecDecl::Fun(name@, view_names(params@), view_decls(body@)),
{
    let v = view_decl(AstDeclaration::FunDeclare { name, params, body: Rc::new(body) });
    assert(v is Fun);
}

#[verifier::spinoff_prover]
pub proof fn lemma_view_decls1(s: Seq<AstDeclaration>, a: AstDeclaration)
    requires
        s.len() == 1,
        s[0] == a,
    ensures
        view_decls(s) == seq![view_decl(a)],
{
    let v = view_decls(s);
    let w = seq![view_decl(a)];
    assert(v.len() == 1);
    assert(v[0] == w[0]);
    assert(v =~= w);
}

#[verifier::spinoff_prover]
pub proof fn lemma_view_decls2(s: Seq<AstDeclaration>, a: AstDeclaration, b: AstDeclaration)
    requires
        s.len() == 2,
        s[0] == a,
        s[1] == b,
    ensures
        view_decls(s) == seq![view_decl(a), view_decl(b)],
{
    lemma_view_decls_index(s, 0);
    lemma_view_decls_index(s, 1);
    lemma_seq2(view_decls(s), view_decl(a), view_decl(b));
}

/// A sequence of two known elements.
#[verifier::spinoff_prover]
proof fn lemma_seq2<A>(v: Seq<A>, x: A, y: A)
    requires
        v.len() == 2,
        v[0] == x,
        v[1] == y,
    ensures
        v == seq![x, y],
{
    assert(v =~= seq![x, y]);
}

/// Each element of a viewed list is the view of the element.
#[verifier::spinoff_prover]
pub proof fn lemma_view_decls_index(s: Seq<AstDeclaration>, k: int)
    requires
        0 <= k < s.len(),
    ensures
        view_decls(s).len() == s.len(),
        view_decls(s)[k] == view_decl(s[k]),
{
}

#[verifier::spinoff_prover]
pub proof fn lemma_view_block2(v: Vec<AstDeclaration>, a: AstDeclaration, b: AstDeclaration)
    requires
        v@.len() == 2,
        v@[0] == a,
        v@[1] == b,
    ensures
        view_stmt(AstStatement::Block(v)) == SpecStmt::Block(seq![view_decl(a), view_decl(b)]),
{
    lemma_view_decls2(v@, a, b);
    lemma_view_stmt_block(v);
}

#[verifier::spinoff_prover]
pub proof fn lemma_view_group(e: AstExpression)
    ensures
        view_primary(AstPrimary::Group(Box::new(e))) == SpecExpr::Group(Box::new(view_expr(e))),
{
    let v = view_primary(AstPrimary::Group(Box::new(e)));
    assert(v is Group);
}

} // verus!
