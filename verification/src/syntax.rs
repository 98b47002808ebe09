//! The mathematical form of Lox syntax trees, and the grammar that the parser
//! follows, written as spec functions over a token sequence.
//!
//! The parser's trees are layered by precedence level (`AstTerm` holds
//! `AstFactor`s, and so on). Their mathematical form, [`SpecExpr`], is one
//! expression type: each layer that only passes an expression through to the
//! next one is left out, so `1 + 2` is `Binary(Add, Number("1"), Number("2"))`
//! whatever level it is found at.
use vstd::prelude::*;
use crate::lexer::{SpecToken, Token};

verus! {

/// The binary operators of Lox expressions.
pub enum BinaryOp {
    Mul,
    Div,
    Add,
    Sub,
    Greater,
    GreaterEqual,
    Less,
    LessEqual,
    Equal,
    NotEqual,
}

/// An expression: the mathematical form of every expression level.
pub enum SpecExpr {
    Number(Seq<char>),
    Str(Seq<char>),
    True,
    False,
    Nil,
    Group(Box<SpecExpr>),
    Id(Seq<char>),
    Call(Box<SpecExpr>, Seq<SpecExpr>),
    Not(Box<SpecExpr>),
    Negative(Box<SpecExpr>),
    Binary(BinaryOp, Box<SpecExpr>, Box<SpecExpr>),
    And(Box<SpecExpr>, Box<SpecExpr>),
    Or(Box<SpecExpr>, Box<SpecExpr>),
    Assign(Seq<char>, Box<SpecExpr>),
}

/// A statement.
pub enum SpecStmt {
    Expr(SpecExpr),
    Print(SpecExpr),
    Block(Seq<SpecDecl>),
    If(SpecExpr, Box<SpecStmt>, Option<Box<SpecStmt>>),
    While(SpecExpr, Box<SpecStmt>),
}

/// A declaration.
pub enum SpecDecl {
    Var(Seq<char>, SpecExpr),
    Fun(Seq<char>, Seq<Seq<char>>, Seq<SpecDecl>),
    Stmt(SpecStmt),
}

/// The largest number of arguments in a call, and of parameters in a
/// function declaration.
pub const MAX_ARGUMENTS: usize = 255;

/// Whether the token at `i` exists and is `k`.
pub open spec fn is_at(t: Seq<SpecToken>, i: int, k: SpecToken) -> bool {
    0 <= i < t.len() && t[i] == k
}

/// The operator that a token stands for at the factor level.
pub open spec fn factor_op(k: SpecToken) -> Option<BinaryOp> {
    match k {
        Token::Slash => Some(BinaryOp::Div),
        Token::Star => Some(BinaryOp::Mul),
        _ => None,
    }
}

/// The operator that a token stands for at the term level.
pub open spec fn term_op(k: SpecToken) -> Option<BinaryOp> {
    match k {
        Token::Minus => Some(BinaryOp::Sub),
        Token::Plus => Some(BinaryOp::Add),
        _ => None,
    }
}

/// The operator that a token stands for at the comparison level.
pub open spec fn comparison_op(k: SpecToken) -> Option<BinaryOp> {
    match k {
        Token::Greater => Some(BinaryOp::Greater),
        Token::GreaterEqual => Some(BinaryOp::GreaterEqual),
        Token::Less => Some(BinaryOp::Less),
        Token::LessEqual => Some(BinaryOp::LessEqual),
        _ => None,
    }
}

/// The operator that a token stands for at the equality level.
pub open spec fn equality_op(k: SpecToken) -> Option<BinaryOp> {
    match k {
        Token::EqualEqual => Some(BinaryOp::Equal),
        Token::BangEqual => Some(BinaryOp::NotEqual),
        _ => None,
    }
}

/// The operator at `i` for the binary level `level` (1 factor, 2 term,
/// 3 comparison, 4 equality).
pub open spec fn op_at(t: Seq<SpecToken>, i: int, level: int) -> Option<BinaryOp> {
    if 0 <= i < t.len() {
        if level == 1 {
            factor_op(t[i])
        } else if level == 2 {
            term_op(t[i])
        } else if level == 3 {
            comparison_op(t[i])
        } else {
            equality_op(t[i])
        }
    } else {
        None
    }
}

// The grammar. Each function parses from index `i`, where the first token of
// the construct must be, and yields the tree with the index just past it.
/// primary → NUMBER | STRING | "true" | "false" | "nil" | IDENTIFIER | "(" expression ")"
pub open spec fn primary_at(t: Seq<SpecToken>, i: int) -> Option<(SpecExpr, int)>
    decreases t.len() - i, 0int,
{
    if 0 <= i < t.len() {
        match t[i] {
            Token::Number(n) => Some((SpecExpr::Number(n), i + 1)),
            Token::String(s) => Some((SpecExpr::Str(s), i + 1)),
            Token::True => Some((SpecExpr::True, i + 1)),
            Token::False => Some((SpecExpr::False, i + 1)),
            Token::Nil => Some((SpecExpr::Nil, i + 1)),
            Token::Identifier(x) => Some((SpecExpr::Id(x), i + 1)),
            Token::LParens => match expr_at(t, i + 1) {
                Some((e, j)) => if is_at(t, j, Token::RParens) {
                    Some((SpecExpr::Group(Box::new(e)), j + 1))
                } else {
                    None
                },
                None => None,
            },
            _ => None,
        }
    } else {
        None
    }
}

/// arguments → ")" | expression ( "," expression )* ")", after the "(".
pub open spec fn args_at(t: Seq<SpecToken>, i: int) -> Option<(Seq<SpecExpr>, int)>
    decreases t.len() - i, 31int,
{
    if 0 <= i < t.len() {
        if t[i] is RParens {
            Some((seq![], i + 1))
        } else {
            args_list(t, i, seq![])
        }
    } else {
        None
    }
}

/// The argument list from `i` on, after the arguments `acc`.
pub open spec fn args_list(t: Seq<SpecToken>, i: int, acc: Seq<SpecExpr>) -> Option<
    (Seq<SpecExpr>, int),
>
    decreases t.len() - i, 30int,
{
    if 0 <= i < t.len() {
        match expr_at(t, i) {
            Some((e, j)) => if i < j <= t.len() {
                if is_at(t, j, Token::Comma) {
                    args_list(t, j + 1, acc.push(e))
                } else if is_at(t, j, Token::RParens) {
                    Some((acc.push(e), j + 1))
                } else {
                    None
                }
            } else {
                None
            },
            None => None,
        }
    } else {
        None
    }
}

/// call → primary ( "(" arguments ")" )*
pub open spec fn call_at(t: Seq<SpecToken>, i: int) -> Option<(SpecExpr, int)>
    decreases t.len() - i, 4int,
{
    if 0 <= i < t.len() {
        match primary_at(t, i) {
            Some((p, j)) => if i < j <= t.len() {
                call_rest(t, p, j)
            } else {
                None
            },
            None => None,
        }
    } else {
        None
    }
}

/// The calls that follow the callee `callee`, from index `j` on.
pub open spec fn call_rest(t: Seq<SpecToken>, callee: SpecExpr, j: int) -> Option<(SpecExpr, int)>
    decreases t.len() - j, 1int,
{
    if 0 <= j < t.len() && t[j] is LParens {
        match args_at(t, j + 1) {
            Some((args, k)) => if j < k <= t.len() {
                if args.len() > MAX_ARGUMENTS {
                    None
                } else {
                    call_rest(t, SpecExpr::Call(Box::new(callee), args), k)
                }
            } else {
                None
            },
            None => None,
        }
    } else {
        Some((callee, j))
    }
}

/// unary → ( "!" | "-" ) unary | call
pub open spec fn unary_at(t: Seq<SpecToken>, i: int) -> Option<(SpecExpr, int)>
    decreases t.len() - i, 5int,
{
    if 0 <= i < t.len() {
        match t[i] {
            Token::Bang => match unary_at(t, i + 1) {
                Some((u, j)) => Some((SpecExpr::Not(Box::new(u)), j)),
                None => None,
            },
            Token::Minus => match unary_at(t, i + 1) {
                Some((u, j)) => Some((SpecExpr::Negative(Box::new(u)), j)),
                None => None,
            },
            _ => call_at(t, i),
        }
    } else {
        None
    }
}

/// The operand of binary level `level`: the next lower level.
pub open spec fn operand_at(t: Seq<SpecToken>, i: int, level: int) -> Option<(SpecExpr, int)>
    decreases t.len() - i, 5int + 2 * level,
{
    if 0 <= i < t.len() && 1 <= level <= 4 {
        if level == 1 {
            unary_at(t, i)
        } else {
            binary_at(t, i, level - 1)
        }
    } else {
        None
    }
}

/// A left-associative chain of binary level `level`:
/// operand ( op operand )*, with 1 factor, 2 term, 3 comparison, 4 equality.
pub open spec fn binary_at(t: Seq<SpecToken>, i: int, level: int) -> Option<(SpecExpr, int)>
    decreases t.len() - i, 6int + 2 * level,
{
    if 0 <= i < t.len() && 1 <= level <= 4 {
        match operand_at(t, i, level) {
            Some((lhs, j)) => if i < j <= t.len() {
                binary_rest(t, lhs, j, level)
            } else {
                None
            },
            None => None,
        }
    } else {
        None
    }
}

/// The rest of a chain of binary level `level` after the left operand `lhs`.
pub open spec fn binary_rest(t: Seq<SpecToken>, lhs: SpecExpr, j: int, level: int) -> Option<
    (SpecExpr, int),
>
    decreases t.len() - j, 5int + 2 * level,
{
    if 1 <= level <= 4 {
        match op_at(t, j, level) {
            Some(op) => match operand_at(t, j + 1, level) {
                Some((rhs, k)) => if j < k <= t.len() {
                    binary_rest(t, SpecExpr::Binary(op, Box::new(lhs), Box::new(rhs)), k, level)
                } else {
                    None
                },
                None => None,
            },
            None => Some((lhs, j)),
        }
    } else {
        None
    }
}

/// logic_and → equality ( "and" logic_and )?
pub open spec fn logic_and_at(t: Seq<SpecToken>, i: int) -> Option<(SpecExpr, int)>
    decreases t.len() - i, 20int,
{
    if 0 <= i < t.len() {
        match binary_at(t, i, 4) {
            Some((e, j)) => if j < i {
                None
            } else if is_at(t, j, Token::And) {
                match logic_and_at(t, j + 1) {
                    Some((r, k)) => Some((SpecExpr::And(Box::new(e), Box::new(r)), k)),
                    None => None,
                }
            } else {
                Some((e, j))
            },
            None => None,
        }
    } else {
        None
    }
}

/// logic_or → logic_and ( "or" logic_or )?
pub open spec fn logic_or_at(t: Seq<SpecToken>, i: int) -> Option<(SpecExpr, int)>
    decreases t.len() - i, 21int,
{
    if 0 <= i < t.len() {
        match logic_and_at(t, i) {
            Some((e, j)) => if j < i {
                None
            } else if is_at(t, j, Token::Or) {
                match logic_or_at(t, j + 1) {
                    Some((r, k)) => Some((SpecExpr::Or(Box::new(e), Box::new(r)), k)),
                    None => None,
                }
            } else {
                Some((e, j))
            },
            None => None,
        }
    } else {
        None
    }
}

/// assignment → IDENTIFIER "=" assignment | logic_or
///
/// The left side is parsed as a `logic_or`; when an `=` follows, it must be a
/// bare identifier.
pub open spec fn assignment_at(t: Seq<SpecToken>, i: int) -> Option<(SpecExpr, int)>
    decreases t.len() - i, 22int,
{
    if 0 <= i < t.len() {
        match logic_or_at(t, i) {
            Some((e, j)) => if j < i {
                None
            } else if is_at(t, j, Token::Equal) {
                match e {
                    SpecExpr::Id(x) => match assignment_at(t, j + 1) {
                        Some((v, k)) => Some((SpecExpr::Assign(x, Box::new(v)), k)),
                        None => None,
                    },
                    _ => None,
                }
            } else {
                Some((e, j))
            },
            None => None,
        }
    } else {
        None
    }
}

/// expression → assignment
pub open spec fn expr_at(t: Seq<SpecToken>, i: int) -> Option<(SpecExpr, int)>
    decreases t.len() - i, 23int,
{
    if 0 <= i < t.len() {
        assignment_at(t, i)
    } else {
        None
    }
}

/// The expression `true`, which stands for an omitted `for` condition.
pub open spec fn true_expr() -> SpecExpr {
    SpecExpr::True
}

/// The initializer clause of a `for`: ";" | var_declaration | expression ";".
pub open spec fn for_init_at(t: Seq<SpecToken>, i: int) -> Option<(Option<SpecDecl>, int)>
    decreases t.len() - i, 57int,
{
    if 0 <= i < t.len() {
        match t[i] {
            Token::Semicolon => Some((None, i + 1)),
            Token::Var => match decl_at(t, i) {
                Some((d, j)) => Some((Some(d), j)),
                None => None,
            },
            _ => match expr_at(t, i) {
                Some((e, j)) => if is_at(t, j, Token::Semicolon) {
                    Some((Some(SpecDecl::Stmt(SpecStmt::Expr(e))), j + 1))
                } else {
                    None
                },
                None => None,
            },
        }
    } else {
        None
    }
}

/// The condition clause of a `for`: ";" (meaning `true`) | expression ";".
pub open spec fn for_cond_at(t: Seq<SpecToken>, i: int) -> Option<(SpecExpr, int)>
    decreases t.len() - i, 24int,
{
    if 0 <= i < t.len() {
        if t[i] is Semicolon {
            Some((true_expr(), i + 1))
        } else {
            match expr_at(t, i) {
                Some((e, j)) => if is_at(t, j, Token::Semicolon) {
                    Some((e, j + 1))
                } else {
                    None
                },
                None => None,
            }
        }
    } else {
        None
    }
}

/// The increment clause of a `for`: ")" | expression ")".
pub open spec fn for_incr_at(t: Seq<SpecToken>, i: int) -> Option<(Option<SpecExpr>, int)>
    decreases t.len() - i, 24int,
{
    if 0 <= i < t.len() {
        if t[i] is RParens {
            Some((None, i + 1))
        } else {
            match expr_at(t, i) {
                Some((e, j)) => if is_at(t, j, Token::RParens) {
                    Some((Some(e), j + 1))
                } else {
                    None
                },
                None => None,
            }
        }
    } else {
        None
    }
}

/// The block that a `for` loop stands for:
/// `{ init; while (cond) { body; incr; } }`, where an absent initializer is
/// left out and an absent increment leaves the body alone.
pub open spec fn desugar_for(
    init: Option<SpecDecl>,
    cond: SpecExpr,
    incr: Option<SpecExpr>,
    body: SpecStmt,
) -> SpecStmt {
    let while_body = match incr {
        Some(inc) => SpecStmt::Block(
            seq![SpecDecl::Stmt(body), SpecDecl::Stmt(SpecStmt::Expr(inc))],
        ),
        None => body,
    };
    let looped = SpecDecl::Stmt(SpecStmt::While(cond, Box::new(while_body)));
    match init {
        Some(d) => SpecStmt::Block(seq![d, looped]),
        None => SpecStmt::Block(seq![looped]),
    }
}

/// for_statement → "(" init cond incr statement, after the `for`; yields the
/// statement that the loop stands for (see [`desugar_for`]).
pub open spec fn for_at(t: Seq<SpecToken>, i: int) -> Option<(SpecStmt, int)>
    decreases t.len() - i, 45int,
{
    if is_at(t, i, Token::LParens) {
        match for_init_at(t, i + 1) {
            Some((init, a)) => if i < a <= t.len() {
                match for_cond_at(t, a) {
                    Some((cond, b)) => if a < b <= t.len() {
                        match for_incr_at(t, b) {
                            Some((incr, c)) => if b < c <= t.len() {
                                match stmt_at(t, c) {
                                    Some((body, d)) => Some((desugar_for(init, cond, incr, body), d)),
                                    None => None,
                                }
                            } else {
                                None
                            },
                            None => None,
                        }
                    } else {
                        None
                    },
                    None => None,
                }
            } else {
                None
            },
            None => None,
        }
    } else {
        None
    }
}

/// The declarations of a block from `i` on, after the declarations `acc`,
/// through the closing "}".
pub open spec fn block_list(t: Seq<SpecToken>, i: int, acc: Seq<SpecDecl>) -> Option<
    (Seq<SpecDecl>, int),
>
    decreases t.len() - i, 60int,
{
    if 0 <= i < t.len() {
        if t[i] is RBrace {
            Some((acc, i + 1))
        } else {
            match decl_at(t, i) {
                Some((d, j)) => if i < j <= t.len() {
                    block_list(t, j, acc.push(d))
                } else {
                    None
                },
                None => None,
            }
        }
    } else {
        None
    }
}

/// block → declaration* "}", after the "{".
pub open spec fn block_at(t: Seq<SpecToken>, i: int) -> Option<(Seq<SpecDecl>, int)>
    decreases t.len() - i, 61int,
{
    block_list(t, i, seq![])
}

/// statement → print | block | if | while | for | expression ";"
pub open spec fn stmt_at(t: Seq<SpecToken>, i: int) -> Option<(SpecStmt, int)>
    decreases t.len() - i, 50int,
{
    if 0 <= i < t.len() {
        match t[i] {
            Token::Print => match expr_at(t, i + 1) {
                Some((e, j)) => if is_at(t, j, Token::Semicolon) {
                    Some((SpecStmt::Print(e), j + 1))
                } else {
                    None
                },
                None => None,
            },
            Token::LBrace => match block_at(t, i + 1) {
                Some((ds, j)) => Some((SpecStmt::Block(ds), j)),
                None => None,
            },
            Token::If => if is_at(t, i + 1, Token::LParens) {
                match expr_at(t, i + 2) {
                    Some((c, j)) => if is_at(t, j, Token::RParens) && i < j {
                        match stmt_at(t, j + 1) {
                            Some((th, k)) => if j < k <= t.len() {
                                if is_at(t, k, Token::Else) {
                                    match stmt_at(t, k + 1) {
                                        Some((el, m)) => Some(
                                            (
                                                SpecStmt::If(
                                                    c,
                                                    Box::new(th),
                                                    Some(Box::new(el)),
                                                ),
                                                m,
                                            ),
                                        ),
                                        None => None,
                                    }
                                } else {
                                    Some((SpecStmt::If(c, Box::new(th), None), k))
                                }
                            } else {
                                None
                            },
                            None => None,
                        }
                    } else {
                        None
                    },
                    None => None,
                }
            } else {
                None
            },
            Token::While => if is_at(t, i + 1, Token::LParens) {
                match expr_at(t, i + 2) {
                    Some((c, j)) => if is_at(t, j, Token::RParens) && i < j {
                        match stmt_at(t, j + 1) {
                            Some((body, k)) => Some((SpecStmt::While(c, Box::new(body)), k)),
                            None => None,
                        }
                    } else {
                        None
                    },
                    None => None,
                }
            } else {
                None
            },
            Token::For => for_at(t, i + 1),
            _ => match expr_at(t, i) {
                Some((e, j)) => if is_at(t, j, Token::Semicolon) {
                    Some((SpecStmt::Expr(e), j + 1))
                } else {
                    None
                },
                None => None,
            },
        }
    } else {
        None
    }
}

/// The parameter list from `i` on, after the parameters `acc`.
pub open spec fn params_list(t: Seq<SpecToken>, i: int, acc: Seq<Seq<char>>) -> Option<
    (Seq<Seq<char>>, int),
>
    decreases t.len() - i,
{
    if 0 <= i < t.len() {
        match t[i] {
            Token::Identifier(x) => if is_at(t, i + 1, Token::Comma) {
                params_list(t, i + 2, acc.push(x))
            } else if is_at(t, i + 1, Token::RParens) {
                Some((acc.push(x), i + 2))
            } else {
                None
            },
            _ => None,
        }
    } else {
        None
    }
}

/// parameters → ")" | IDENTIFIER ( "," IDENTIFIER )* ")", after the "(".
pub open spec fn params_at(t: Seq<SpecToken>, i: int) -> Option<(Seq<Seq<char>>, int)> {
    if is_at(t, i, Token::RParens) {
        Some((seq![], i + 1))
    } else {
        params_list(t, i, seq![])
    }
}

/// declaration → "fun" IDENTIFIER "(" parameters "{" block
///             | "var" IDENTIFIER "=" expression ";"
///             | statement
pub open spec fn decl_at(t: Seq<SpecToken>, i: int) -> Option<(SpecDecl, int)>
    decreases t.len() - i, 55int,
{
    if 0 <= i < t.len() {
        match t[i] {
            Token::Fun => if 0 <= i + 1 < t.len() && t[i + 1] is Identifier && is_at(
                t,
                i + 2,
                Token::LParens,
            ) {
                match params_at(t, i + 3) {
                    Some((ps, j)) => if ps.len() <= MAX_ARGUMENTS && is_at(t, j, Token::LBrace)
                        && i < j {
                        match block_at(t, j + 1) {
                            Some((body, k)) => Some(
                                (SpecDecl::Fun(t[i + 1]->Identifier_0, ps, body), k),
                            ),
                            None => None,
                        }
                    } else {
                        None
                    },
                    None => None,
                }
            } else {
                None
            },
            Token::Var => if 0 <= i + 1 < t.len() && t[i + 1] is Identifier && is_at(
                t,
                i + 2,
                Token::Equal,
            ) {
                match expr_at(t, i + 3) {
                    Some((e, j)) => if is_at(t, j, Token::Semicolon) {
                        Some((SpecDecl::Var(t[i + 1]->Identifier_0, e), j + 1))
                    } else {
                        None
                    },
                    None => None,
                }
            } else {
                None
            },
            _ => match stmt_at(t, i) {
                Some((s, j)) => Some((SpecDecl::Stmt(s), j)),
                None => None,
            },
        }
    } else {
        None
    }
}


// Laws of the grammar: what each construct parses to, in terms of the
// constructs it is made of.

/// The next lower precedence level below binary level `level`: unary below
/// factor (1), factor below term (2), term below comparison (3), comparison
/// below equality (4).
pub open spec fn lower_at(t: Seq<SpecToken>, i: int, level: int) -> Option<(SpecExpr, int)> {
    if level == 1 {
        unary_at(t, i)
    } else {
        binary_at(t, i, level - 1)
    }
}

/// The operators of each binary level, by their tokens: `/` and `*` at the
/// factor level, `-` and `+` at the term level, `>`, `>=`, `<`, `<=` at the
/// comparison level, `==` and `!=` at the equality level; no other token is
/// an operator of that level.
#[verifier::spinoff_prover]
pub proof fn law_operator_tokens(t: Seq<SpecToken>, j: int)
    requires
        0 <= j < t.len(),
    ensures
        t[j] is Slash ==> op_at(t, j, 1) == Some(BinaryOp::Div),
        t[j] is Star ==> op_at(t, j, 1) == Some(BinaryOp::Mul),
        !(t[j] is Slash || t[j] is Star) ==> op_at(t, j, 1) is None,
        t[j] is Minus ==> op_at(t, j, 2) == Some(BinaryOp::Sub),
        t[j] is Plus ==> op_at(t, j, 2) == Some(BinaryOp::Add),
        !(t[j] is Minus || t[j] is Plus) ==> op_at(t, j, 2) is None,
        t[j] is Greater ==> op_at(t, j, 3) == Some(BinaryOp::Greater),
        t[j] is GreaterEqual ==> op_at(t, j, 3) == Some(BinaryOp::GreaterEqual),
        t[j] is Less ==> op_at(t, j, 3) == Some(BinaryOp::Less),
        t[j] is LessEqual ==> op_at(t, j, 3) == Some(BinaryOp::LessEqual),
        !(t[j] is Greater || t[j] is GreaterEqual || t[j] is Less || t[j] is LessEqual) ==> op_at(
            t,
            j,
            3,
        ) is None,
        t[j] is EqualEqual ==> op_at(t, j, 4) == Some(BinaryOp::Equal),
        t[j] is BangEqual ==> op_at(t, j, 4) == Some(BinaryOp::NotEqual),
        !(t[j] is EqualEqual || t[j] is BangEqual) ==> op_at(t, j, 4) is None,
{
}

/// A binary chain starts with an operand of the next lower level, which is
/// the left operand of its first operator: the chain goes on from there with
/// that operand as the expression so far.
#[verifier::spinoff_prover]
pub proof fn law_binary_chain_start(t: Seq<SpecToken>, i: int, level: int)
    requires
        1 <= level <= 4,
        0 <= i < t.len(),
    ensures
        lower_at(t, i, level) is None ==> binary_at(t, i, level) is None,
        match lower_at(t, i, level) {
            Some((a, j)) => i < j <= t.len() ==> binary_at(t, i, level) == binary_rest(
                t,
                a,
                j,
                level,
            ),
            None => true,
        },
{
}

/// A binary chain is left-associative and keeps its operands in source
/// order: after the expression so far `x`, an operator `op` and an operand
/// `b` of the next lower level make `Binary(op, x, b)`, and the chain goes on
/// after `b`; without an operator the chain ends with `x`.
#[verifier::spinoff_prover]
pub proof fn law_binary_chain_step(t: Seq<SpecToken>, x: SpecExpr, j: int, level: int)
    requires
        1 <= level <= 4,
        0 <= j,
    ensures
        op_at(t, j, level) is None ==> binary_rest(t, x, j, level) == Some((x, j)),
        op_at(t, j, level) matches Some(op) ==> match lower_at(t, j + 1, level) {
            Some((b, k)) => j < k <= t.len() ==> binary_rest(t, x, j, level) == binary_rest(
                t,
                SpecExpr::Binary(op, Box::new(x), Box::new(b)),
                k,
                level,
            ),
            None => binary_rest(t, x, j, level) is None,
        },
{
    assert(operand_at(t, j + 1, level) == lower_at(t, j + 1, level));
}

/// `!` and `-` apply to the unary that follows them; anything else is a call.
#[verifier::spinoff_prover]
pub proof fn law_unary(t: Seq<SpecToken>, i: int)
    requires
        0 <= i < t.len(),
    ensures
        t[i] is Bang ==> unary_at(t, i) == match unary_at(t, i + 1) {
            Some((u, j)) => Some((SpecExpr::Not(Box::new(u)), j)),
            None => None,
        },
        t[i] is Minus ==> unary_at(t, i) == match unary_at(t, i + 1) {
            Some((u, j)) => Some((SpecExpr::Negative(Box::new(u)), j)),
            None => None,
        },
        !(t[i] is Bang || t[i] is Minus) ==> unary_at(t, i) == call_at(t, i),
{
}

/// The primaries: each literal token is its literal, an identifier is a
/// variable, and `(` expression `)` is a group; nothing else is a primary.
#[verifier::spinoff_prover]
pub proof fn law_primary(t: Seq<SpecToken>, i: int)
    requires
        0 <= i < t.len(),
    ensures
        t[i] matches Token::Number(n) ==> primary_at(t, i) == Some((SpecExpr::Number(n), i + 1)),
        t[i] matches Token::String(x) ==> primary_at(t, i) == Some((SpecExpr::Str(x), i + 1)),
        t[i] is True ==> primary_at(t, i) == Some((SpecExpr::True, i + 1)),
        t[i] is False ==> primary_at(t, i) == Some((SpecExpr::False, i + 1)),
        t[i] is Nil ==> primary_at(t, i) == Some((SpecExpr::Nil, i + 1)),
        t[i] matches Token::Identifier(x) ==> primary_at(t, i) == Some((SpecExpr::Id(x), i + 1)),
        t[i] is LParens ==> primary_at(t, i) == match expr_at(t, i + 1) {
            Some((e, j)) => if is_at(t, j, Token::RParens) {
                Some((SpecExpr::Group(Box::new(e)), j + 1))
            } else {
                None
            },
            None => None,
        },
        !(t[i] is Number || t[i] is String || t[i] is True || t[i] is False || t[i] is Nil
            || t[i] is Identifier || t[i] is LParens) ==> primary_at(t, i) is None,
{
}

/// A call is a primary followed by argument lists, applied left to right:
/// each `(` arguments `)` of at most `MAX_ARGUMENTS` arguments calls the
/// expression so far.
#[verifier::spinoff_prover]
pub proof fn law_call(t: Seq<SpecToken>, i: int, c: SpecExpr, j: int)
    requires
        0 <= i < t.len(),
        0 <= j,
    ensures
        primary_at(t, i) is None ==> call_at(t, i) is None,
        match primary_at(t, i) {
            Some((p, k)) => i < k <= t.len() ==> call_at(t, i) == call_rest(t, p, k),
            None => true,
        },
        !is_at(t, j, Token::LParens) ==> call_rest(t, c, j) == Some((c, j)),
        is_at(t, j, Token::LParens) ==> match args_at(t, j + 1) {
            Some((args, k)) => j < k <= t.len() ==> call_rest(t, c, j) == if args.len()
                <= MAX_ARGUMENTS {
                call_rest(t, SpecExpr::Call(Box::new(c), args), k)
            } else {
                None
            },
            None => call_rest(t, c, j) is None,
        },
{
}

/// The arguments of a call, after its `(`: `)` alone is none; otherwise
/// expressions separated by commas and closed by `)`, in source order.
#[verifier::spinoff_prover]
pub proof fn law_arguments(t: Seq<SpecToken>, i: int, acc: Seq<SpecExpr>)
    requires
        0 <= i < t.len(),
    ensures
        t[i] is RParens ==> args_at(t, i) == Some((Seq::<SpecExpr>::empty(), i + 1)),
        !(t[i] is RParens) ==> args_at(t, i) == args_list(t, i, Seq::<SpecExpr>::empty()),
        match expr_at(t, i) {
            Some((e, j)) => i < j <= t.len() ==> args_list(t, i, acc) == if is_at(
                t,
                j,
                Token::Comma,
            ) {
                args_list(t, j + 1, acc.push(e))
            } else if is_at(t, j, Token::RParens) {
                Some((acc.push(e), j + 1))
            } else {
                None
            },
            None => args_list(t, i, acc) is None,
        },
{
}

/// `and` joins an equality to the `and` chain after it; `or` joins an `and`
/// chain to the `or` chain after it.
#[verifier::spinoff_prover]
pub proof fn law_logic(t: Seq<SpecToken>, i: int)
    requires
        0 <= i < t.len(),
    ensures
        match binary_at(t, i, 4) {
            Some((e, j)) => i <= j ==> logic_and_at(t, i) == if is_at(t, j, Token::And) {
                match logic_and_at(t, j + 1) {
                    Some((r, k)) => Some((SpecExpr::And(Box::new(e), Box::new(r)), k)),
                    None => None,
                }
            } else {
                Some((e, j))
            },
            None => logic_and_at(t, i) is None,
        },
        match logic_and_at(t, i) {
            Some((e, j)) => i <= j ==> logic_or_at(t, i) == if is_at(t, j, Token::Or) {
                match logic_or_at(t, j + 1) {
                    Some((r, k)) => Some((SpecExpr::Or(Box::new(e), Box::new(r)), k)),
                    None => None,
                }
            } else {
                Some((e, j))
            },
            None => logic_or_at(t, i) is None,
        },
{
}

/// An expression is an assignment: a variable, `=` and an assignment assign
/// that value to the variable; an `=` after anything but a bare variable is
/// an error; without `=` the expression is its `or` chain.
#[verifier::spinoff_prover]
pub proof fn law_assignment(t: Seq<SpecToken>, i: int)
    requires
        0 <= i < t.len(),
    ensures
        expr_at(t, i) == assignment_at(t, i),
        match logic_or_at(t, i) {
            Some((e, j)) => i <= j ==> assignment_at(t, i) == if !is_at(t, j, Token::Equal) {
                Some((e, j))
            } else {
                match e {
                    SpecExpr::Id(x) => match assignment_at(t, j + 1) {
                        Some((v, k)) => Some((SpecExpr::Assign(x, Box::new(v)), k)),
                        None => None,
                    },
                    _ => None,
                }
            },
            None => assignment_at(t, i) is None,
        },
{
}

/// The declarations gathered so far only come in front of what a block
/// gathers from `i` on.
#[verifier::spinoff_prover]
#[verifier::rlimit(60)]
proof fn lemma_block_list_acc(t: Seq<SpecToken>, i: int, acc: Seq<SpecDecl>)
    ensures
        block_list(t, i, acc) == match block_list(t, i, Seq::<SpecDecl>::empty()) {
            Some((ds, k)) => Some((acc + ds, k)),
            None => None,
        },
    decreases t.len() - i,
{
    let e = Seq::<SpecDecl>::empty();
    if 0 <= i < t.len() && !(t[i] is RBrace) {
        if let Some((d, j)) = decl_at(t, i) {
            if i < j <= t.len() {
                lemma_block_list_acc(t, j, acc.push(d));
                lemma_block_list_acc(t, j, e.push(d));
                if let Some((ds, k)) = block_list(t, j, e) {
                    assert(acc.push(d) + ds =~= acc + (e.push(d) + ds));
                }
            }
        }
    } else if 0 <= i < t.len() {
        assert(acc + e =~= acc);
    }
}

/// A block, after its `{`: `}` closes it empty; otherwise its first
/// declaration comes before the declarations of the rest of the block.
#[verifier::spinoff_prover]
pub proof fn law_block(t: Seq<SpecToken>, i: int)
    requires
        0 <= i < t.len(),
    ensures
        t[i] is RBrace ==> block_at(t, i) == Some((Seq::<SpecDecl>::empty(), i + 1)),
        !(t[i] is RBrace) ==> match decl_at(t, i) {
            Some((d, j)) => i < j <= t.len() ==> block_at(t, i) == match block_at(t, j) {
                Some((ds, k)) => Some((seq![d] + ds, k)),
                None => None,
            },
            None => block_at(t, i) is None,
        },
{
    if !(t[i] is RBrace) {
        if let Some((d, j)) = decl_at(t, i) {
            if i < j <= t.len() {
                lemma_block_list_acc(t, j, Seq::<SpecDecl>::empty().push(d));
                assert(Seq::<SpecDecl>::empty().push(d) =~= seq![d]);
            }
        }
    }
}

/// `print` expression `;` prints the expression; an expression followed by
/// `;` is an expression statement; `{` opens a block statement.
#[verifier::spinoff_prover]
pub proof fn law_simple_statements(t: Seq<SpecToken>, i: int)
    requires
        0 <= i < t.len(),
    ensures
        t[i] is Print ==> stmt_at(t, i) == match expr_at(t, i + 1) {
            Some((e, j)) => if is_at(t, j, Token::Semicolon) {
                Some((SpecStmt::Print(e), j + 1))
            } else {
                None
            },
            None => None,
        },
        t[i] is LBrace ==> stmt_at(t, i) == match block_at(t, i + 1) {
            Some((ds, j)) => Some((SpecStmt::Block(ds), j)),
            None => None,
        },
        !(t[i] is Print || t[i] is LBrace || t[i] is If || t[i] is While || t[i] is For)
            ==> stmt_at(t, i) == match expr_at(t, i) {
            Some((e, j)) => if is_at(t, j, Token::Semicolon) {
                Some((SpecStmt::Expr(e), j + 1))
            } else {
                None
            },
            None => None,
        },
{
}

/// `while (` condition `)` body repeats the body while the condition holds.
#[verifier::spinoff_prover]
pub proof fn law_while_statement(t: Seq<SpecToken>, i: int)
    requires
        0 <= i < t.len(),
        t[i] is While,
    ensures
        !is_at(t, i + 1, Token::LParens) ==> stmt_at(t, i) is None,
        is_at(t, i + 1, Token::LParens) ==> match expr_at(t, i + 2) {
            Some((c, j)) => i < j ==> stmt_at(t, i) == if is_at(t, j, Token::RParens) {
                match stmt_at(t, j + 1) {
                    Some((b, k)) => Some((SpecStmt::While(c, Box::new(b)), k)),
                    None => None,
                }
            } else {
                None
            },
            None => stmt_at(t, i) is None,
        },
{
}

/// `if (` condition `)` statement, with an `else` statement when one
/// follows; the `else` belongs to the nearest `if`.
#[verifier::spinoff_prover]
pub proof fn law_if_statement(t: Seq<SpecToken>, i: int)
    requires
        0 <= i < t.len(),
        t[i] is If,
    ensures
        !is_at(t, i + 1, Token::LParens) ==> stmt_at(t, i) is None,
        is_at(t, i + 1, Token::LParens) ==> match expr_at(t, i + 2) {
            Some((c, j)) => i < j ==> (!is_at(t, j, Token::RParens) ==> stmt_at(t, i) is None)
                && (is_at(t, j, Token::RParens) ==> match stmt_at(t, j + 1) {
                Some((th, k)) => j < k <= t.len() ==> stmt_at(t, i) == if is_at(
                    t,
                    k,
                    Token::Else,
                ) {
                    match stmt_at(t, k + 1) {
                        Some((el, m)) => Some(
                            (SpecStmt::If(c, Box::new(th), Some(Box::new(el))), m),
                        ),
                        None => None,
                    }
                } else {
                    Some((SpecStmt::If(c, Box::new(th), None), k))
                },
                None => stmt_at(t, i) is None,
            }),
            None => stmt_at(t, i) is None,
        },
{
}

/// `for (` init cond incr `)` body is the block `{ init; while (cond) {
/// body; incr; } }`: an absent initializer is left out, an absent condition
/// is `true`, and an absent increment leaves the body alone.
#[verifier::spinoff_prover]
#[verifier::rlimit(60)]
pub proof fn law_for_statement(t: Seq<SpecToken>, i: int)
    requires
        0 <= i < t.len(),
        t[i] is For,
    ensures
        stmt_at(t, i) == for_at(t, i + 1),
        is_at(t, i + 1, Token::LParens) ==> match for_init_at(t, i + 2) {
            Some((init, a)) => i + 1 < a <= t.len() ==> match for_cond_at(t, a) {
                Some((cond, b)) => a < b <= t.len() ==> match for_incr_at(t, b) {
                    Some((incr, c)) => b < c <= t.len() ==> match stmt_at(t, c) {
                        Some((body, d)) => {
                            let looped = SpecDecl::Stmt(
                                SpecStmt::While(
                                    cond,
                                    Box::new(
                                        match incr {
                                            Some(inc) => SpecStmt::Block(
                                                seq![
                                                    SpecDecl::Stmt(body),
                                                    SpecDecl::Stmt(SpecStmt::Expr(inc)),
                                                ],
                                            ),
                                            None => body,
                                        },
                                    ),
                                ),
                            );
                            stmt_at(t, i) == Some(
                                (
                                    SpecStmt::Block(
                                        match init {
                                            Some(d0) => seq![d0, looped],
                                            None => seq![looped],
                                        },
                                    ),
                                    d,
                                ),
                            )
                        },
                        None => stmt_at(t, i) is None,
                    },
                    None => stmt_at(t, i) is None,
                },
                None => stmt_at(t, i) is None,
            },
            None => stmt_at(t, i) is None,
        },
{
    assert(stmt_at(t, i) == for_at(t, i + 1));
}

/// The clauses of a `for`: the initializer is `;` (none), a `var`
/// declaration, or an expression statement; the condition is `;` (meaning
/// `true`) or an expression and `;`; the increment is `)` (none) or an
/// expression and `)`.
#[verifier::spinoff_prover]
pub proof fn law_for_clauses(t: Seq<SpecToken>, i: int)
    requires
        0 <= i < t.len(),
    ensures
        t[i] is Semicolon ==> for_init_at(t, i) == Some((Option::<SpecDecl>::None, i + 1)),
        t[i] is Var ==> for_init_at(t, i) == match decl_at(t, i) {
            Some((d, j)) => Some((Some(d), j)),
            None => None,
        },
        !(t[i] is Semicolon || t[i] is Var) ==> for_init_at(t, i) == match expr_at(t, i) {
            Some((e, j)) => if is_at(t, j, Token::Semicolon) {
                Some((Some(SpecDecl::Stmt(SpecStmt::Expr(e))), j + 1))
            } else {
                None
            },
            None => None,
        },
        t[i] is Semicolon ==> for_cond_at(t, i) == Some((SpecExpr::True, i + 1)),
        !(t[i] is Semicolon) ==> for_cond_at(t, i) == match expr_at(t, i) {
            Some((e, j)) => if is_at(t, j, Token::Semicolon) {
                Some((e, j + 1))
            } else {
                None
            },
            None => None,
        },
        t[i] is RParens ==> for_incr_at(t, i) == Some((Option::<SpecExpr>::None, i + 1)),
        !(t[i] is RParens) ==> for_incr_at(t, i) == match expr_at(t, i) {
            Some((e, j)) => if is_at(t, j, Token::RParens) {
                Some((Some(e), j + 1))
            } else {
                None
            },
            None => None,
        },
{
}

/// The declarations: `var` name `=` expression `;` declares a variable;
/// `fun` name `(` parameters `)` block declares a function of at most
/// `MAX_ARGUMENTS` parameters; anything else is a statement.
#[verifier::spinoff_prover]
pub proof fn law_declarations(t: Seq<SpecToken>, i: int)
    requires
        0 <= i < t.len(),
    ensures
        t[i] is Var && !(i + 2 < t.len() && t[i + 1] is Identifier && t[i + 2] is Equal)
            ==> decl_at(t, i) is None,
        t[i] is Var && i + 2 < t.len() && t[i + 1] is Identifier && t[i + 2] is Equal
            ==> decl_at(t, i) == match expr_at(t, i + 3) {
            Some((e, j)) => if is_at(t, j, Token::Semicolon) {
                Some((SpecDecl::Var(t[i + 1]->Identifier_0, e), j + 1))
            } else {
                None
            },
            None => None,
        },
        t[i] is Fun && !(i + 2 < t.len() && t[i + 1] is Identifier && t[i + 2] is LParens)
            ==> decl_at(t, i) is None,
        t[i] is Fun && i + 2 < t.len() && t[i + 1] is Identifier && t[i + 2] is LParens
            ==> match params_at(t, i + 3) {
            Some((ps, j)) => i < j ==> decl_at(t, i) == if ps.len() <= MAX_ARGUMENTS && is_at(
                t,
                j,
                Token::LBrace,
            ) {
                match block_at(t, j + 1) {
                    Some((body, k)) => Some((SpecDecl::Fun(t[i + 1]->Identifier_0, ps, body), k)),
                    None => None,
                }
            } else {
                None
            },
            None => decl_at(t, i) is None,
        },
        !(t[i] is Var || t[i] is Fun) ==> decl_at(t, i) == match stmt_at(t, i) {
            Some((st, j)) => Some((SpecDecl::Stmt(st), j)),
            None => None,
        },
{
}

/// A token that cannot begin an expression: no literal, identifier, `(`,
/// `!` or `-`.
pub open spec fn starts_no_expression(k: SpecToken) -> bool {
    !(k is Number || k is String || k is True || k is False || k is Nil || k is Identifier
        || k is LParens || k is Bang || k is Minus)
}

/// At a token that cannot begin one, each expression level fails having
/// read just that token.
#[verifier::spinoff_prover]
proof fn lemma_bad_start_levels(t: Seq<SpecToken>, i: int)
    requires
        0 <= i < t.len(),
        starts_no_expression(t[i]),
    ensures
        unary_at(t, i) is None,
        unary_fail(t, i) == i + 1,
        binary_at(t, i, 1) is None,
        binary_fail(t, i, 1) == i + 1,
        binary_at(t, i, 2) is None,
        binary_fail(t, i, 2) == i + 1,
        binary_at(t, i, 3) is None,
        binary_fail(t, i, 3) == i + 1,
        binary_at(t, i, 4) is None,
        binary_fail(t, i, 4) == i + 1,
        logic_and_at(t, i) is None,
        logic_and_fail(t, i) == i + 1,
        logic_or_at(t, i) is None,
        logic_or_fail(t, i) == i + 1,
{
    assert(primary_at(t, i) is None);
    assert(primary_fail(t, i) == i + 1);
    assert(call_at(t, i) is None);
    assert(call_fail(t, i) == i + 1);
    assert(unary_at(t, i) is None);
    assert(unary_fail(t, i) == i + 1);
    assert(operand_at(t, i, 1) is None);
    assert(operand_fail(t, i, 1) == i + 1);
    assert(binary_at(t, i, 1) is None);
    assert(binary_fail(t, i, 1) == i + 1);
    assert(operand_at(t, i, 2) is None);
    assert(operand_fail(t, i, 2) == i + 1);
    assert(binary_at(t, i, 2) is None);
    assert(binary_fail(t, i, 2) == i + 1);
    assert(operand_at(t, i, 3) is None);
    assert(operand_fail(t, i, 3) == i + 1);
    assert(binary_at(t, i, 3) is None);
    assert(binary_fail(t, i, 3) == i + 1);
    assert(operand_at(t, i, 4) is None);
    assert(operand_fail(t, i, 4) == i + 1);
    assert(binary_at(t, i, 4) is None);
    assert(binary_fail(t, i, 4) == i + 1);
    assert(logic_and_at(t, i) is None);
    assert(logic_and_fail(t, i) == i + 1);
}

/// An expression cannot begin with a token that starts none: the parser
/// reads that token, and also an `=` right after it (it looks for an
/// assignment after the failed left side), and stops there.
#[verifier::spinoff_prover]
pub proof fn law_bad_expression_start(t: Seq<SpecToken>, i: int)
    requires
        0 <= i < t.len(),
        starts_no_expression(t[i]),
    ensures
        expr_at(t, i) is None,
        expr_fail(t, i) == if is_at(t, i + 1, Token::Equal) {
            i + 2
        } else {
            i + 1
        },
{
    lemma_bad_start_levels(t, i);
}

/// Where a failed statement or declaration stops: just past a token that
/// was read and found wrong, but before a `(` or `)` that was only looked
/// for and is missing.
#[verifier::spinoff_prover]
pub proof fn law_statement_failures(t: Seq<SpecToken>, i: int)
    requires
        0 <= i < t.len(),
    ensures
        !(t[i] is Var || t[i] is Fun || t[i] is Print || t[i] is LBrace || t[i] is If
            || t[i] is While || t[i] is For) ==> decl_fail(t, i) == match expr_at(t, i) {
            Some((_, j)) => if j < t.len() {
                j + 1
            } else {
                j
            },
            None => expr_fail(t, i),
        },
        t[i] is Print ==> decl_fail(t, i) == match expr_at(t, i + 1) {
            Some((_, j)) => if j < t.len() {
                j + 1
            } else {
                j
            },
            None => expr_fail(t, i + 1),
        },
        (t[i] is If || t[i] is While) && !is_at(t, i + 1, Token::LParens) ==> decl_fail(t, i)
            == i + 1,
        (t[i] is If || t[i] is While) && is_at(t, i + 1, Token::LParens) ==> match expr_at(
            t,
            i + 2,
        ) {
            Some((_, j)) => i < j && !is_at(t, j, Token::RParens) ==> decl_fail(t, i) == j,
            None => decl_fail(t, i) == expr_fail(t, i + 2),
        },
        t[i] is Var && i + 1 >= t.len() ==> decl_fail(t, i) == i + 1,
        t[i] is Var && i + 1 < t.len() && !(t[i + 1] is Identifier) ==> decl_fail(t, i) == i + 2,
        t[i] is Var && i + 2 < t.len() && t[i + 1] is Identifier && !(t[i + 2] is Equal)
            ==> decl_fail(t, i) == i + 3,
        t[i] is Fun && i + 1 >= t.len() ==> decl_fail(t, i) == i + 1,
        t[i] is Fun && i + 1 < t.len() && !(t[i + 1] is Identifier && is_at(
            t,
            i + 2,
            Token::LParens,
        )) ==> decl_fail(t, i) == i + 2,
{
    if t[i] is If {
        assert(decl_fail(t, i) == stmt_fail(t, i));
        assert(stmt_fail(t, i) == if_fail(t, i));
    }
    if t[i] is While {
        assert(decl_fail(t, i) == stmt_fail(t, i));
        assert(stmt_fail(t, i) == while_fail(t, i));
    }
}

/// The tokens of a parameter list after its "(": `)` for no parameters, and
/// `x1 , x2 , ... , xn )` otherwise.
pub open spec fn params_text(xs: Seq<Seq<char>>) -> Seq<SpecToken>
    decreases xs.len(),
{
    if xs.len() == 0 {
        seq![Token::RParens]
    } else if xs.len() == 1 {
        seq![Token::Identifier(xs[0]), Token::RParens]
    } else {
        seq![Token::Identifier(xs[0]), Token::Comma] + params_text(xs.drop_first())
    }
}

#[verifier::spinoff_prover]
proof fn lemma_params_list_reads_text(t: Seq<SpecToken>, i: int, acc: Seq<Seq<char>>, xs: Seq<Seq<char>>)
    requires
        0 <= i,
        xs.len() > 0,
        i + params_text(xs).len() <= t.len(),
        t.subrange(i, i + params_text(xs).len()) == params_text(xs),
    ensures
        params_list(t, i, acc) == Some((acc + xs, i + params_text(xs).len())),
    decreases xs.len(),
{
    let n = params_text(xs).len() as int;
    assert(t[i] == t.subrange(i, i + n)[0]);
    assert(t[i + 1] == t.subrange(i, i + n)[1]);
    if xs.len() == 1 {
        assert(acc.push(xs[0]) =~= acc + xs);
    } else {
        let rest = xs.drop_first();
        let m = params_text(rest).len() as int;
        assert(n == m + 2);
        assert(t.subrange(i + 2, i + 2 + m) =~= t.subrange(i, i + n).subrange(2, n));
        assert(params_text(xs).subrange(2, n) =~= params_text(rest));
        lemma_params_list_reads_text(t, i + 2, acc.push(xs[0]), rest);
        assert(acc.push(xs[0]) + rest =~= acc + xs);
    }
}

#[verifier::spinoff_prover]
proof fn lemma_params_list_text(t: Seq<SpecToken>, i: int, acc: Seq<Seq<char>>)
    requires
        0 <= i,
        params_list(t, i, acc) is Some,
    ensures
        ({
            let (ys, j) = params_list(t, i, acc)->0;
            let xs = ys.subrange(acc.len() as int, ys.len() as int);
            &&& acc.len() < ys.len()
            &&& ys.subrange(0, acc.len() as int) == acc
            &&& j == i + params_text(xs).len()
            &&& j <= t.len()
            &&& t.subrange(i, j) == params_text(xs)
        }),
    decreases t.len() - i,
{
    let (ys, j) = params_list(t, i, acc)->0;
    let x = t[i]->Identifier_0;
    if is_at(t, i + 1, Token::Comma) {
        lemma_params_list_text(t, i + 2, acc.push(x));
        let xs = ys.subrange(acc.len() as int, ys.len() as int);
        let rest = ys.subrange(acc.len() + 1int, ys.len() as int);
        assert(xs.len() >= 2);
        assert(xs.drop_first() =~= rest);
        let a = acc.len() as int;
        assert(ys.subrange(0, a + 1) == acc.push(x));
        assert(ys[a] == ys.subrange(0, a + 1)[a]);
        assert(xs[0] == x);
        assert(ys.subrange(0, acc.len() as int) =~= acc.push(x).subrange(0, acc.len() as int));
        assert(t.subrange(i, j) =~= seq![t[i], t[i + 1]] + t.subrange(i + 2, j));
    } else {
        let xs = ys.subrange(acc.len() as int, ys.len() as int);
        assert(xs =~= seq![x]);
        assert(ys.subrange(0, acc.len() as int) =~= acc);
        assert(t.subrange(i, j) =~= seq![t[i], t[i + 1]]);
    }
}

/// A parameter list is exactly `)` or `x1 , ... , xn )`, with no bound on
/// its length: the parameters parse as `xs`, ending at `j`, exactly when the
/// tokens from `i` to `j` are the text of `xs`.
#[verifier::spinoff_prover]
pub proof fn law_params_closed_form(t: Seq<SpecToken>, i: int, xs: Seq<Seq<char>>)
    requires
        0 <= i,
    ensures
        (i + params_text(xs).len() <= t.len() && t.subrange(i, i + params_text(xs).len())
            == params_text(xs)) ==> params_at(t, i) == Some((xs, i + params_text(xs).len())),
        params_at(t, i) matches Some((ys, j)) ==> j == i + params_text(ys).len() && j <= t.len()
            && t.subrange(i, j) == params_text(ys),
{
    let n = params_text(xs).len() as int;
    if i + n <= t.len() && t.subrange(i, i + n) == params_text(xs) {
        assert(t[i] == t.subrange(i, i + n)[0]);
        if xs.len() > 0 {
            lemma_params_list_reads_text(t, i, seq![], xs);
            assert(seq![] + xs =~= xs);
        }
    }
    if let Some((ys, j)) = params_at(t, i) {
        if is_at(t, i, Token::RParens) {
            assert(ys.len() == 0);
            assert(t.subrange(i, j) =~= seq![Token::RParens]);
        } else {
            lemma_params_list_text(t, i, seq![]);
            assert(ys.subrange(0, ys.len() as int) =~= ys);
        }
    }
}

/// The tokens of `fun f(xs) {}`.
pub open spec fn empty_fun_text(f: Seq<char>, xs: Seq<Seq<char>>) -> Seq<SpecToken> {
    seq![Token::Fun, Token::Identifier(f), Token::LParens] + params_text(xs) + seq![
        Token::LBrace,
        Token::RBrace,
    ]
}

/// `fun f(p1, ..., pn) {}` is a declaration exactly when it has at most
/// `MAX_ARGUMENTS` parameters; it is then the function `f` with those
/// parameters and an empty body, and takes all of its tokens.
#[verifier::spinoff_prover]
#[verifier::rlimit(40)]
pub proof fn law_parameter_limit(f: Seq<char>, xs: Seq<Seq<char>>)
    ensures
        decl_at(empty_fun_text(f, xs), 0) is Some <==> xs.len() <= MAX_ARGUMENTS,
        xs.len() <= MAX_ARGUMENTS ==> decl_at(empty_fun_text(f, xs), 0) == Some(
            (SpecDecl::Fun(f, xs, seq![]), empty_fun_text(f, xs).len() as int),
        ),
{
    let t = empty_fun_text(f, xs);
    let n = params_text(xs).len() as int;
    assert(t.subrange(3, 3 + n) =~= params_text(xs));
    law_params_closed_form(t, 3, xs);
    assert(t[0] == Token::<Seq<char>>::Fun);
    assert(t[1] == Token::<Seq<char>>::Identifier(f));
    assert(t[2] == Token::<Seq<char>>::LParens);
    assert(t[3 + n] == Token::<Seq<char>>::LBrace);
    assert(t[4 + n] == Token::<Seq<char>>::RBrace);
    assert(t.len() == n + 5);
    assert(block_list(t, 4 + n, seq![]) == Some((Seq::<SpecDecl>::empty(), 5 + n)));
}

// Where a failed parse stops. When a construct does not parse from `i`, the
// parser has read the tokens up to the returned index: each token taken as the
// head of a construct, or matched and then found wrong, is read; a token that
// is only looked at and found not to be the expected one is not. A failure
// found inside an assignment's left side also reads an `=` that follows.

/// Where parsing stops when the primary at `i` does not parse.
pub open spec fn primary_fail(t: Seq<SpecToken>, i: int) -> int
    decreases t.len() - i, 0int,
{
    if 0 <= i < t.len() {
        match t[i] {
            Token::LParens => match expr_at(t, i + 1) {
                Some((_, j)) => if j < t.len() {
                    j + 1
                } else {
                    j
                },
                None => expr_fail(t, i + 1),
            },
            _ => i + 1,
        }
    } else {
        i
    }
}

/// Where parsing stops when the arguments from `i` (after the "(") do not parse.
pub open spec fn args_fail(t: Seq<SpecToken>, i: int) -> int
    decreases t.len() - i, 31int,
{
    if 0 <= i < t.len() {
        if t[i] is RParens {
            i + 1
        } else {
            args_list_fail(t, i)
        }
    } else {
        i
    }
}

/// Where parsing stops when the argument list from `i` does not parse.
pub open spec fn args_list_fail(t: Seq<SpecToken>, i: int) -> int
    decreases t.len() - i, 30int,
{
    if 0 <= i < t.len() {
        match expr_at(t, i) {
            Some((_, j)) => if i < j <= t.len() && is_at(t, j, Token::Comma) {
                args_list_fail(t, j + 1)
            } else {
                j
            },
            None => expr_fail(t, i),
        }
    } else {
        i
    }
}

/// Where parsing stops when the call at `i` does not parse.
pub open spec fn call_fail(t: Seq<SpecToken>, i: int) -> int
    decreases t.len() - i, 4int,
{
    if 0 <= i < t.len() {
        match primary_at(t, i) {
            Some((_, j)) => if i < j <= t.len() {
                call_rest_fail(t, j)
            } else {
                j
            },
            None => primary_fail(t, i),
        }
    } else {
        i
    }
}

/// Where parsing stops when the calls that follow a callee, from `j`, do not
/// parse.
pub open spec fn call_rest_fail(t: Seq<SpecToken>, j: int) -> int
    decreases t.len() - j, 1int,
{
    if 0 <= j < t.len() && t[j] is LParens {
        match args_at(t, j + 1) {
            Some((args, k)) => if j < k <= t.len() && args.len() <= MAX_ARGUMENTS {
                call_rest_fail(t, k)
            } else {
                k
            },
            None => args_fail(t, j + 1),
        }
    } else {
        j
    }
}

/// Where parsing stops when the unary at `i` does not parse.
pub open spec fn unary_fail(t: Seq<SpecToken>, i: int) -> int
    decreases t.len() - i, 5int,
{
    if 0 <= i < t.len() {
        match t[i] {
            Token::Bang => unary_fail(t, i + 1),
            Token::Minus => unary_fail(t, i + 1),
            _ => call_fail(t, i),
        }
    } else {
        i
    }
}

/// Where parsing stops when the operand of binary level `level` at `i` does
/// not parse.
pub open spec fn operand_fail(t: Seq<SpecToken>, i: int, level: int) -> int
    decreases t.len() - i, 5int + 2 * level,
{
    if 0 <= i < t.len() && 1 <= level <= 4 {
        if level == 1 {
            unary_fail(t, i)
        } else {
            binary_fail(t, i, level - 1)
        }
    } else {
        i
    }
}

/// Where parsing stops when the chain of binary level `level` at `i` does not
/// parse.
pub open spec fn binary_fail(t: Seq<SpecToken>, i: int, level: int) -> int
    decreases t.len() - i, 6int + 2 * level,
{
    if 0 <= i < t.len() && 1 <= level <= 4 {
        match operand_at(t, i, level) {
            Some((_, j)) => if i < j <= t.len() {
                binary_rest_fail(t, j, level)
            } else {
                j
            },
            None => operand_fail(t, i, level),
        }
    } else {
        i
    }
}

/// Where parsing stops when the rest of a chain of binary level `level`, from
/// `j`, does not parse.
pub open spec fn binary_rest_fail(t: Seq<SpecToken>, j: int, level: int) -> int
    decreases t.len() - j, 5int + 2 * level,
{
    if 1 <= level <= 4 && op_at(t, j, level) is Some {
        match operand_at(t, j + 1, level) {
            Some((_, k)) => if j < k <= t.len() {
                binary_rest_fail(t, k, level)
            } else {
                k
            },
            None => operand_fail(t, j + 1, level),
        }
    } else {
        j
    }
}

/// Where parsing stops when the `and` chain at `i` does not parse.
pub open spec fn logic_and_fail(t: Seq<SpecToken>, i: int) -> int
    decreases t.len() - i, 20int,
{
    if 0 <= i < t.len() {
        match binary_at(t, i, 4) {
            Some((_, j)) => if i <= j && is_at(t, j, Token::And) {
                logic_and_fail(t, j + 1)
            } else {
                j
            },
            None => binary_fail(t, i, 4),
        }
    } else {
        i
    }
}

/// Where parsing stops when the `or` chain at `i` does not parse.
pub open spec fn logic_or_fail(t: Seq<SpecToken>, i: int) -> int
    decreases t.len() - i, 21int,
{
    if 0 <= i < t.len() {
        match logic_and_at(t, i) {
            Some((_, j)) => if i <= j && is_at(t, j, Token::Or) {
                logic_or_fail(t, j + 1)
            } else {
                j
            },
            None => logic_and_fail(t, i),
        }
    } else {
        i
    }
}

/// Where parsing stops when the assignment at `i` does not parse. A failed
/// left side is followed by a look for `=`, which reads it if it is there.
pub open spec fn assignment_fail(t: Seq<SpecToken>, i: int) -> int
    decreases t.len() - i, 22int,
{
    if 0 <= i < t.len() {
        match logic_or_at(t, i) {
            Some((e, j)) => if i <= j && is_at(t, j, Token::Equal) {
                if e is Id {
                    assignment_fail(t, j + 1)
                } else {
                    j + 1
                }
            } else {
                j
            },
            None => {
                let k = logic_or_fail(t, i);
                if is_at(t, k, Token::Equal) {
                    k + 1
                } else {
                    k
                }
            },
        }
    } else {
        i
    }
}

/// Where parsing stops when the expression at `i` does not parse.
pub open spec fn expr_fail(t: Seq<SpecToken>, i: int) -> int
    decreases t.len() - i, 23int,
{
    if 0 <= i < t.len() {
        assignment_fail(t, i)
    } else {
        i
    }
}

/// Where parsing stops when the initializer clause of a `for` at `i` does not
/// parse.
pub open spec fn for_init_fail(t: Seq<SpecToken>, i: int) -> int
    decreases t.len() - i, 57int,
{
    if 0 <= i < t.len() {
        match t[i] {
            Token::Semicolon => i + 1,
            Token::Var => decl_fail(t, i),
            _ => match expr_at(t, i) {
                Some((_, j)) => j,
                None => expr_fail(t, i),
            },
        }
    } else {
        i
    }
}

/// Where parsing stops when the condition clause of a `for` at `i` does not
/// parse.
pub open spec fn for_cond_fail(t: Seq<SpecToken>, i: int) -> int
    decreases t.len() - i, 24int,
{
    if 0 <= i < t.len() {
        if t[i] is Semicolon {
            i + 1
        } else {
            match expr_at(t, i) {
                Some((_, j)) => j,
                None => expr_fail(t, i),
            }
        }
    } else {
        i
    }
}

/// Where parsing stops when the increment clause of a `for` at `i` does not
/// parse.
pub open spec fn for_incr_fail(t: Seq<SpecToken>, i: int) -> int
    decreases t.len() - i, 24int,
{
    if 0 <= i < t.len() {
        if t[i] is RParens {
            i + 1
        } else {
            match expr_at(t, i) {
                Some((_, j)) => j,
                None => expr_fail(t, i),
            }
        }
    } else {
        i
    }
}

/// Where parsing stops when the `for` statement after the `for` at `i` does
/// not parse.
pub open spec fn for_fail(t: Seq<SpecToken>, i: int) -> int
    decreases t.len() - i, 45int,
{
    if is_at(t, i, Token::LParens) {
        match for_init_at(t, i + 1) {
            Some((_, a)) => if i < a <= t.len() {
                match for_cond_at(t, a) {
                    Some((_, b)) => if a < b <= t.len() {
                        match for_incr_at(t, b) {
                            Some((_, c)) => if b < c <= t.len() {
                                stmt_fail(t, c)
                            } else {
                                c
                            },
                            None => for_incr_fail(t, b),
                        }
                    } else {
                        b
                    },
                    None => for_cond_fail(t, a),
                }
            } else {
                a
            },
            None => for_init_fail(t, i + 1),
        }
    } else {
        i
    }
}

/// Where parsing stops when the declarations of a block from `i` on do not
/// parse through the closing "}".
pub open spec fn block_fail(t: Seq<SpecToken>, i: int) -> int
    decreases t.len() - i, 60int,
{
    if 0 <= i < t.len() {
        if t[i] is RBrace {
            i + 1
        } else {
            match decl_at(t, i) {
                Some((_, j)) => if i < j <= t.len() {
                    block_fail(t, j)
                } else {
                    j
                },
                None => decl_fail(t, i),
            }
        }
    } else {
        i
    }
}

/// Where parsing stops when the statement at `i` does not parse.
pub open spec fn stmt_fail(t: Seq<SpecToken>, i: int) -> int
    decreases t.len() - i, 50int,
{
    if 0 <= i < t.len() {
        match t[i] {
            Token::Print => match expr_at(t, i + 1) {
                Some((_, j)) => if j < t.len() {
                    j + 1
                } else {
                    j
                },
                None => expr_fail(t, i + 1),
            },
            Token::LBrace => block_fail(t, i + 1),
            Token::If => if_fail(t, i),
            Token::While => while_fail(t, i),
            Token::For => for_fail(t, i + 1),
            _ => match expr_at(t, i) {
                Some((_, j)) => if j < t.len() {
                    j + 1
                } else {
                    j
                },
                None => expr_fail(t, i),
            },
        }
    } else {
        i
    }
}


/// The end of the statement at `i`, if it parses.
#[verifier::opaque]
pub open spec fn stmt_end_at(t: Seq<SpecToken>, i: int) -> Option<int> {
    match stmt_at(t, i) {
        Some((_, k)) => Some(k),
        None => None,
    }
}

/// Where parsing stops when the `if` statement at `i` does not parse.
pub open spec fn if_fail(t: Seq<SpecToken>, i: int) -> int
    decreases t.len() - i, 49int,
{
    if is_at(t, i + 1, Token::LParens) && 0 <= i {
        match expr_at(t, i + 2) {
            Some((_, j)) => if is_at(t, j, Token::RParens) && i < j {
                match stmt_end_at(t, j + 1) {
                    Some(k) => if j < k <= t.len() && is_at(t, k, Token::Else) {
                        stmt_fail(t, k + 1)
                    } else {
                        k
                    },
                    None => stmt_fail(t, j + 1),
                }
            } else {
                j
            },
            None => expr_fail(t, i + 2),
        }
    } else {
        i + 1
    }
}

/// Where parsing stops when the `while` statement at `i` does not parse.
pub open spec fn while_fail(t: Seq<SpecToken>, i: int) -> int
    decreases t.len() - i, 49int,
{
    if is_at(t, i + 1, Token::LParens) && 0 <= i {
        match expr_at(t, i + 2) {
            Some((_, j)) => if is_at(t, j, Token::RParens) && i < j {
                stmt_fail(t, j + 1)
            } else {
                j
            },
            None => expr_fail(t, i + 2),
        }
    } else {
        i + 1
    }
}

/// Where parsing stops when the parameter list from `i` does not parse.
pub open spec fn params_list_fail(t: Seq<SpecToken>, i: int) -> int
    decreases t.len() - i,
{
    if 0 <= i < t.len() {
        if t[i] is Identifier && is_at(t, i + 1, Token::Comma) {
            params_list_fail(t, i + 2)
        } else {
            i + 1
        }
    } else {
        i
    }
}

/// Where parsing stops when the parameters from `i` (after the "(") do not
/// parse.
pub open spec fn params_fail(t: Seq<SpecToken>, i: int) -> int {
    if is_at(t, i, Token::RParens) {
        i + 1
    } else {
        params_list_fail(t, i)
    }
}

/// Where parsing stops when the declaration at `i` does not parse.
pub open spec fn decl_fail(t: Seq<SpecToken>, i: int) -> int
    decreases t.len() - i, 55int,
{
    if 0 <= i < t.len() {
        match t[i] {
            Token::Fun => if i + 1 >= t.len() {
                i + 1
            } else if !(t[i + 1] is Identifier) || !is_at(t, i + 2, Token::LParens) {
                i + 2
            } else {
                match params_at(t, i + 3) {
                    Some((ps, j)) => if ps.len() <= MAX_ARGUMENTS && is_at(t, j, Token::LBrace)
                        && i < j {
                        block_fail(t, j + 1)
                    } else {
                        j
                    },
                    None => params_fail(t, i + 3),
                }
            },
            Token::Var => if i + 1 >= t.len() {
                i + 1
            } else if !(t[i + 1] is Identifier) || i + 2 >= t.len() {
                i + 2
            } else if !(t[i + 2] is Equal) {
                i + 3
            } else {
                match expr_at(t, i + 3) {
                    Some((_, j)) => if j < t.len() {
                        j + 1
                    } else {
                        j
                    },
                    None => expr_fail(t, i + 3),
                }
            },
            _ => stmt_fail(t, i),
        }
    } else {
        i
    }
}

} // verus!
