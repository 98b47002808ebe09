use lox::lexer::{tokenize, Token};
use lox::parser::{
    make_true_expr, parse, parse_id, parse_parameters, parse_program, Ast, AstAssignment, AstCall,
    AstComparison, AstDeclaration, AstEquality, AstExpression, AstFactor, AstLogicAnd, AstLogicOr,
    AstPrimary, AstStatement, AstTerm, AstUnary, Parser,
};

fn expr_of(ast: Ast) -> AstExpression {
    match ast {
        Ast::Declare(AstDeclaration::Statement(AstStatement::Expr(e))) => e,
        other => panic!("expected an expression statement, got {other:?}"),
    }
}

fn call_of(e: AstExpression) -> AstCall {
    match e {
        AstExpression::Assignment(AstAssignment::LogicOr(AstLogicOr::Or(
            AstLogicAnd::And(
                AstEquality::Comparison(AstComparison::Term(AstTerm::Factor(AstFactor::Unary(
                    AstUnary::Call(c),
                )))),
                None,
            ),
            None,
        ))) => c,
        other => panic!("expected a call, got {other:?}"),
    }
}

fn primary(p: AstPrimary) -> AstCall {
    AstCall::Primary(p)
}

#[test]
fn test_call_chains_left_associatively() {
    let c = call_of(expr_of(parse("f()();").unwrap()));
    let f = primary(AstPrimary::Id("f".to_string()));
    assert_eq!(c, AstCall::Call(Box::new(AstCall::Call(Box::new(f), vec![])), vec![]));
}

#[test]
fn test_call_with_arguments() {
    let c = call_of(expr_of(parse("f(1, x);").unwrap()));
    match c {
        AstCall::Call(callee, mut args) => {
            assert_eq!(*callee, primary(AstPrimary::Id("f".to_string())));
            assert_eq!(args.len(), 2);
            let second = args.pop().unwrap();
            let first = args.pop().unwrap();
            assert_eq!(call_of(first), primary(AstPrimary::Number("1".to_string())));
            assert_eq!(call_of(second), primary(AstPrimary::Id("x".to_string())));
        }
        other => panic!("expected a call, got {other:?}"),
    }
}

fn call_with(n: usize) -> String {
    let args: Vec<String> = (0..n).map(|k| k.to_string()).collect();
    format!("f({});", args.join(", "))
}

#[test]
fn test_at_most_255_arguments() {
    assert!(parse(&call_with(255)).is_some());
    assert!(parse(&call_with(256)).is_none());
}

fn fun_with(n: usize) -> String {
    let params: Vec<String> = (0..n).map(|k| format!("p{k}")).collect();
    format!("fun f({}) {{ }}", params.join(", "))
}

#[test]
fn test_at_most_255_parameters() {
    assert!(parse(&fun_with(255)).is_some());
    assert!(parse(&fun_with(256)).is_none());
}

#[test]
fn test_function_declaration() {
    let ast = parse("fun add(a, b) { print a; }").unwrap();
    match ast {
        Ast::Declare(AstDeclaration::FunDeclare { name, params, body }) => {
            assert_eq!(name, "add");
            assert_eq!(params, vec!["a".to_string(), "b".to_string()]);
            assert_eq!(body.len(), 1);
            assert!(matches!(body[0], AstDeclaration::Statement(AstStatement::Print(_))));
        }
        other => panic!("expected a function, got {other:?}"),
    }
}

#[test]
fn test_var_declaration() {
    let ast = parse("var x = 1;").unwrap();
    assert!(matches!(ast, Ast::Declare(AstDeclaration::VarDeclare(ref x, _)) if x == "x"));
    assert!(parse("var 1 = 2;").is_none());
    assert!(parse("var x = 1").is_none());
}

#[test]
fn test_parse_parameters() {
    let toks = tokenize("a, b) {");
    assert_eq!(parse_parameters(&toks, 0), Some((vec!["a".to_string(), "b".to_string()], 4)));
    let toks = tokenize(") {");
    assert_eq!(parse_parameters(&toks, 0), Some((vec![], 1)));
    let toks = tokenize("a, 1)");
    assert_eq!(parse_parameters(&toks, 0), None);
    let toks = tokenize("a b)");
    assert_eq!(parse_parameters(&toks, 0), None);
}

#[test]
fn test_parse_id() {
    assert_eq!(parse_id(&Token::Identifier("x".to_string())), Some("x".to_string()));
    assert_eq!(parse_id(&Token::Nil), None);
    assert_eq!(parse_id(&Token::String("x".to_string())), None);
}

#[test]
fn test_make_true_expr_is_the_literal_true() {
    assert_eq!(make_true_expr(), expr_of(parse("true;").unwrap()));
}

#[test]
fn test_parse_program_reads_every_declaration() {
    let program = parse_program("var x = 1; print x; x = 2;");
    assert_eq!(program.len(), 3);
    assert_eq!(program[0], parse("var x = 1;").unwrap());
    assert_eq!(program[1], parse("print x;").unwrap());
    assert_eq!(program[2], parse("x = 2;").unwrap());
}

#[test]
fn test_parse_program_stops_at_first_error() {
    let program = parse_program("1; 2 +; 3;");
    assert_eq!(program.len(), 1);
}

#[test]
fn test_parse_is_first_of_program() {
    for source in ["print 1; print 2;", "1 +;", "", "{ var a = 1; } a;"] {
        let first = parse(source);
        let program = parse_program(source);
        match first {
            Some(ast) => assert_eq!(program[0], ast),
            None => assert!(program.is_empty()),
        }
    }
}

#[test]
fn test_parser_resumes_after_error() {
    let mut parser = Parser::new(tokenize("1 + ; 2 ;"));
    assert!(parser.next().is_none());
    assert_eq!(parser.next(), parse("2;"));
    assert!(parser.next().is_none());
    assert!(parser.next().is_none());
}

#[test]
fn test_failed_left_side_reads_a_following_equal() {
    let mut parser = Parser::new(tokenize("1 + ; = 3; 4;"));
    assert!(parser.next().is_none());
    assert_eq!(parser.next(), parse("3;"));
    assert_eq!(parser.next(), parse("4;"));
    assert!(parser.next().is_none());
}

#[test]
fn test_error_after_a_complete_expression_reads_the_wrong_token() {
    let mut parser = Parser::new(tokenize("print 1 ) 5;"));
    assert!(parser.next().is_none());
    assert_eq!(parser.next(), parse("5;"));
}

#[test]
fn test_missing_paren_is_not_read() {
    let mut parser = Parser::new(tokenize("if (1 2; 3;"));
    assert!(parser.next().is_none());
    assert_eq!(parser.next(), parse("2;"));
    assert_eq!(parser.next(), parse("3;"));
}

#[test]
fn test_parser_declarations_after_next() {
    let mut parser = Parser::new(tokenize("1; 2; 3;"));
    assert!(parser.next().is_some());
    assert_eq!(parser.declarations().len(), 2);
    assert!(parser.next().is_none());
}

#[test]
fn test_or_and_precedence() {
    let e = expr_of(parse("a or b and c;").unwrap());
    match e {
        AstExpression::Assignment(AstAssignment::LogicOr(AstLogicOr::Or(
            AstLogicAnd::And(_, None),
            Some(tail),
        ))) => {
            assert!(matches!(*tail, AstLogicOr::Or(AstLogicAnd::And(_, Some(_)), None)));
        }
        other => panic!("unexpected shape {other:?}"),
    }
}

#[test]
fn test_assignment_needs_identifier_target() {
    assert!(parse("a + b = c;").is_none());
    assert!(parse("(a) = 1;").is_none());
    assert!(parse("a = 1;").is_some());
}

#[test]
fn test_while_statement() {
    let ast = parse("while (x < 3) x = x + 1;").unwrap();
    assert!(matches!(ast, Ast::Declare(AstDeclaration::Statement(AstStatement::While(_, _)))));
}

#[test]
fn test_parameter_list_closed_form() {
    let toks = tokenize("a, b, c) rest");
    assert_eq!(
        parse_parameters(&toks, 0),
        Some((vec!["a".to_string(), "b".to_string(), "c".to_string()], 6))
    );
    assert_eq!(parse_parameters(&tokenize("a, )"), 0), None);
    assert_eq!(parse_parameters(&tokenize("1)"), 0), None);
    assert_eq!(parse_parameters(&tokenize(""), 0), None);
    let many: Vec<String> = (0..300).map(|k| format!("p{k}")).collect();
    let toks = tokenize(&format!("{})", many.join(", ")));
    assert_eq!(parse_parameters(&toks, 0).map(|(ps, _)| ps.len()), Some(300));
}

#[test]
fn test_empty_function_parses_exactly_up_to_the_limit() {
    for n in [0usize, 1, 2, 254, 255, 256, 300] {
        let params: Vec<String> = (0..n).map(|k| format!("p{k}")).collect();
        let source = format!("fun f({}) {{}}", params.join(", "));
        assert_eq!(parse(&source).is_some(), n <= 255);
    }
}
