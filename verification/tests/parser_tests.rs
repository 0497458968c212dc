use whilex::error::Error;
use whilex::grammar::{Decl, Expr, InfixOperator, Literal, Program, Stmt};
use whilex::lexer::Lexer;
use whilex::parser::Parser;

fn parse(source: &str) -> (Result<Program, Error>, Vec<String>) {
    let mut parser = Parser::new(Lexer::new(source));
    let program = parser.program();
    let errors = parser.errors().iter().map(|e| e.message()).collect();
    (program, errors)
}

fn lit(l: &Literal) -> String {
    match l {
        Literal::Number { content, pos } => format!("{}@{}", content.to_decimal(), pos.line),
        Literal::Identifier { content, pos } => format!("{}@{}", content, pos.line),
    }
}

fn expr(e: &Expr) -> String {
    match e {
        Expr::Literal(l) => lit(l),
        Expr::BinaryOp { left, operator, right } => {
            let op = match operator {
                InfixOperator::Plus(_) => "+",
                InfixOperator::Minus(_) => "-",
            };
            format!("({} {} {})", lit(left), op, lit(right))
        }
    }
}

fn stmt(s: &Stmt) -> String {
    match s {
        Stmt::VarAssignment { name, expr: e } => format!("{} < {}", name, expr(e)),
        Stmt::Block(v) => format!("{{{}}}", v.iter().map(stmt).collect::<Vec<_>>().join("; ")),
        Stmt::While { name, statement } => format!("while {} {}", name, stmt(statement)),
        Stmt::Procedure(name) => format!("call {}", name),
    }
}

fn show(p: &Program) -> Vec<String> {
    match p {
        Program::Declarations(d) => d
            .iter()
            .map(|d| match d {
                Decl::Statement(s) => stmt(s),
                Decl::Procedure { name, statement } => format!("procedure {} {}", name, stmt(statement)),
            })
            .collect(),
    }
}

#[test]
fn assignments_and_expressions() {
    let (p, errors) = parse("x0 < x1 - 10;\nbox < 10 + box;\ny < 7;");
    assert!(errors.is_empty());
    assert_eq!(show(&p.unwrap()), vec!["x0 < (x1@1 - 10@1)", "box < (10@2 + box@2)", "y < 7@3"]);
}

#[test]
fn while_block_and_procedures() {
    let source = "procedure mult {\n count < a;\n a < 0;\n while count != 0 {\n count < count - 1;\n a < a + b;\n }\n}\na < 10;\nb < 20;\nmult;";
    let (p, errors) = parse(source);
    assert!(errors.is_empty());
    assert_eq!(
        show(&p.unwrap()),
        vec![
            "procedure mult {count < a@2; a < 0@3; while count {count < (count@5 - 1@5); a < (a@6 + b@6)}}",
            "a < 10@9",
            "b < 20@10",
            "call mult",
        ]
    );
}

#[test]
fn empty_program() {
    let (p, errors) = parse("// nothing\n");
    assert!(errors.is_empty());
    assert!(show(&p.unwrap()).is_empty());
}

#[test]
fn missing_expression_is_reported() {
    let (p, errors) = parse("x0 < ;");
    assert!(matches!(p, Err(Error::ParsingError)));
    assert_eq!(errors, vec!["Error: Expected an expression in line 1."]);
}

#[test]
fn while_condition_must_compare_with_zero() {
    let (p, errors) = parse("while x != 1 { x < 0; }");
    assert!(p.is_err());
    assert_eq!(errors[0], "Error: Expected 0 in line 1.");
}

#[test]
fn missing_semicolon_and_variable() {
    let (_, errors) = parse("x < 1");
    assert_eq!(errors, vec!["Error: Expected ; in line 1."]);
    let (_, errors) = parse("+;");
    assert_eq!(errors, vec!["Error: Expected a variable in line 1."]);
    let (_, errors) = parse("while 3 != 0 x;");
    assert_eq!(errors[0], "Error: Expected a variable in line 1.");
    let (_, errors) = parse("while x 0 {}");
    assert_eq!(errors[0], "Error: Expected != in line 1.");
}

#[test]
fn unclosed_block_is_reported() {
    let (_, errors) = parse("{ x < 1;");
    assert_eq!(errors, vec!["Error: Expected } in line 1."]);
}

#[test]
fn recovery_reports_every_bad_declaration() {
    let (p, errors) = parse("x < ;\ny < 2;\n+ z;\nw < 1 1;\nv < 3;");
    assert!(matches!(p, Err(Error::ParsingError)));
    assert_eq!(
        errors,
        vec![
            "Error: Expected an expression in line 1.",
            "Error: Expected a variable in line 2.",
            "Error: Expected ; in line 4.",
        ]
    );
}

#[test]
fn lexing_errors_reach_the_parser() {
    let (p, errors) = parse("x < 1;\ny # < 2;");
    assert!(matches!(p, Err(Error::ParsingError)));
    assert_eq!(errors, vec!["Error: Unknown symbol in line 2."]);
    let (p, errors) = parse("x < 1;\ny # 2;");
    assert!(p.is_err());
    assert_eq!(errors, vec!["Error: Unknown symbol in line 2."]);
    let (p, errors) = parse("x0 < # ;");
    assert!(matches!(p, Err(Error::ParsingError)));
    assert_eq!(errors, vec!["Error: Unknown symbol in line 1."]);
    let (p, errors) = parse("# x < 1;\ny < 2;");
    assert!(p.is_err());
    assert_eq!(errors, vec!["Error: Unknown symbol in line 1."]);
    let (_, errors) = parse("a < 1 ? ;\n? b < 2;\n\nc < ;");
    assert_eq!(
        errors,
        vec![
            "Error: Unknown symbol in line 1.",
            "Error: Unknown symbol in line 2.",
            "Error: Expected an expression in line 4.",
        ]
    );
}

#[test]
fn a_new_parser_holds_no_error() {
    let parser = Parser::new(Lexer::new("#"));
    assert!(parser.errors().is_empty());
    let mut parser = Parser::new(Lexer::new("# {}"));
    assert!(parser.errors().is_empty());
    assert!(matches!(parser.var(), Err(Error::UnknownSymbol(1))));
    assert!(matches!(parser.var(), Err(Error::UnknownSymbol(1))));
    assert!(parser.errors().is_empty());
    parser.synchronize();
    assert!(parser.errors().is_empty());
    assert!(matches!(parser.program(), Ok(Program::Declarations(ref d)) if d.len() == 1));
}

#[test]
fn parser_takes_a_used_lexer() {
    let mut lexer = Lexer::new("a ? b < 1;");
    assert!(lexer.next().is_some());
    let mut parser = Parser::new(lexer);
    assert!(parser.program().is_err());
    assert_eq!(parser.errors().len(), 1);
    let mut lexer = Lexer::new("a < 1;");
    while lexer.next().is_some() {}
    let mut parser = Parser::new(lexer);
    assert!(matches!(parser.program(), Ok(Program::Declarations(d)) if d.is_empty()));
}

#[test]
fn synchronize_and_small_rules() {
    let mut parser = Parser::new(Lexer::new("a b ; c"));
    parser.synchronize();
    assert!(matches!(parser.var(), Ok(ref n) if n == "c"));
    let mut parser = Parser::new(Lexer::new("+ - x"));
    assert!(matches!(parser.infix_operator(), Ok(InfixOperator::Plus(_))));
    assert!(matches!(parser.infix_operator(), Ok(InfixOperator::Minus(_))));
    assert!(matches!(parser.infix_operator(), Err(Error::ExpectedExpression(1))));
    let mut parser = Parser::new(Lexer::new("a while b"));
    parser.synchronize();
    assert!(matches!(parser.var(), Err(Error::NotAVariable(1))));
}

#[test]
fn recovery_stops_where_the_next_statement_starts() {
    let mut parser = Parser::new(Lexer::new("1 + ; x1 < 2;"));
    parser.synchronize();
    assert!(parser.errors().is_empty());
    assert!(matches!(parser.var(), Ok(ref n) if n == "x1"));
    let mut parser = Parser::new(Lexer::new("x0 1 while y != 0 {}"));
    parser.synchronize();
    assert!(parser.errors().is_empty());
    assert!(matches!(parser.var(), Err(Error::NotAVariable(1))));
    assert!(matches!(parser.program(), Ok(Program::Declarations(ref d)) if d.len() == 1));
    let mut parser = Parser::new(Lexer::new("while x"));
    assert!(matches!(parser.var(), Err(Error::NotAVariable(1))));
    assert!(matches!(parser.var(), Err(Error::NotAVariable(1))));
    let mut parser = Parser::new(Lexer::new("< 1"));
    assert!(matches!(parser.infix_operator(), Err(Error::ExpectedExpression(1))));
    assert!(matches!(parser.infix_operator(), Err(Error::ExpectedExpression(1))));
}
