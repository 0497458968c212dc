use whilex::environment::Environment;
use whilex::error::Error;
use whilex::grammar::{Decl, Expr, Literal, Program, Stmt};
use whilex::interpreter::Interpreter;
use whilex::lexer::TokenPos;
use whilex::natural::Natural;
use whilex::{execute, Run};

fn num(s: &str) -> Natural {
    Natural::parse_decimal(s).unwrap()
}

fn run(source: &str, init: &[&str], fuel: u64) -> Run {
    execute(source, init.iter().map(|s| num(s)).collect(), fuel)
}

fn answer(source: &str, init: &[&str]) -> String {
    let r = run(source, init, u64::MAX);
    assert!(r.errors.is_empty());
    match r.result {
        Ok(s) => s,
        Err(e) => panic!("{}", e.message()),
    }
}

const MULT: &str = "procedure mult {\n    count < a;\n    a < 0;\n    while count != 0 {\n        count < count - 1;\n        a < a + b;\n    }\n}\n\na < 10;\nb < 20;\nmult;\nx0 < a;";

#[test]
fn mult_procedure_multiplies() {
    assert_eq!(answer(MULT, &[]), "200");
}

#[test]
fn environment_after_a_run() {
    let source = "procedure mult { count < a; a < 0; while count != 0 { count < count - 1; a < a + b; } } a < 10; b < 20; mult;";
    let mut parser = whilex::parser::Parser::new(whilex::lexer::Lexer::new(source));
    let program = parser.program().unwrap();
    let mut interpreter = Interpreter { env: Environment::new(vec![]) };
    assert!(interpreter.program(&program, 1000).is_ok());
    assert_eq!(interpreter.env.retrieve_var("a").to_decimal(), "200");
    assert!(interpreter.env.retrieve_var("count").is_zero());
    assert!(interpreter.env.retrieve_proc("mult").is_some());
}

#[test]
fn output_is_x0_from_initial_values() {
    assert_eq!(answer("x0 < x3; // Assigning x3 to x0", &["10", "20", "30"]), "30");
    assert_eq!(answer("x0 < x1;", &["10", "20", "30"]), "10");
    assert_eq!(answer("x0 < x4;", &["10", "20", "30"]), "0");
    assert_eq!(answer("", &["42"]), "0");
}

#[test]
fn variables_start_at_zero() {
    assert_eq!(answer("x0 < never_set;", &["5"]), "0");
    assert_eq!(answer("x0 < x0 + 1;", &["5"]), "1");
    assert_eq!(answer("", &[]), "0");
}

#[test]
fn subtraction_saturates() {
    assert_eq!(answer("x0 < 3 - 10;", &[]), "0");
    assert_eq!(answer("x0 < 10 - 3;", &[]), "7");
    assert_eq!(answer("x0 < x1 - x2;", &["5", "5"]), "0");
    assert_eq!(answer("x0 < x1 - x2;", &["5", "6"]), "0");
    assert_eq!(answer("x0 < x1 - x2;", &["6", "5"]), "1");
}

#[test]
fn large_numbers() {
    assert_eq!(
        answer("x0 < x1 + x1;", &["99999999999999999999999999999999"]),
        "199999999999999999999999999999998"
    );
}

#[test]
fn while_loop_ends_with_its_variable_at_zero() {
    assert_eq!(answer("value < 5; while value != 0 { value < value - 1; x0 < x0 + 2; } x0 < x0 + value;", &[]), "10");
}

#[test]
fn undefined_procedure_is_an_error() {
    let r = run("x0 < 1; later; procedure later { x0 < 2; }", &[], 100);
    assert!(r.errors.is_empty());
    assert!(matches!(r.result, Err(Error::UndefinedProcedure(ref n)) if n == "later"));
}

#[test]
fn procedure_declared_later_in_program_order() {
    assert_eq!(answer("procedure p { x0 < x0 + 1; } p; p; procedure p { x0 < x0 + 10; } p;", &[]), "12");
}

#[test]
fn step_limit_stops_endless_loops() {
    let r = run("x < 1; while x != 0 { x < 1; }", &[], 1000);
    assert!(matches!(r.result, Err(Error::StepLimit)));
    assert_eq!(r.result.unwrap_err().message(), "Error: The program did not finish within its step limit.");
}

#[test]
fn more_steps_give_the_same_answer() {
    let source = "n < 6; while n != 0 { n < n - 1; x0 < x0 + 3; }";
    assert!(matches!(run(source, &[], 5).result, Err(Error::StepLimit)));
    assert_eq!(run(source, &[], 6).result.unwrap(), "18");
    assert_eq!(run(source, &[], 7).result.unwrap(), "18");
    assert_eq!(run(source, &[], u64::MAX).result.unwrap(), "18");
}

#[test]
fn parse_errors_stop_the_run() {
    let r = run("x0 < ; x0 < 1;", &[], 100);
    assert_eq!(r.errors.len(), 1);
    assert!(matches!(r.result, Err(Error::ParsingError)));
    let r = run("x0 < 1 % ;\nx0 < 2;", &[], 100);
    assert_eq!(r.errors.len(), 1);
    assert!(matches!(r.errors[0], Error::UnknownSymbol(1)));
    assert!(matches!(r.result, Err(Error::ParsingError)));
}

#[test]
fn recursive_procedure_counts_down() {
    let source = "procedure down { while n != 0 { n < n - 1; x0 < x0 + 1; down; } } n < 3; down;";
    assert_eq!(answer(source, &[]), "3");
}

#[test]
fn environment_reads_and_writes() {
    let mut env = Environment::new(vec![num("4"), num("9")]);
    assert!(env.retrieve_var("x0").is_zero());
    assert_eq!(env.retrieve_var("x1").to_decimal(), "4");
    assert_eq!(env.retrieve_var("x2").to_decimal(), "9");
    assert!(env.retrieve_var("x3").is_zero());
    env.assign_var("x1", num("3"));
    env.assign_var("y", num("8"));
    assert_eq!(env.retrieve_var("x1").to_decimal(), "3");
    assert_eq!(env.retrieve_var("y").to_decimal(), "8");
    assert_eq!(env.retrieve_var("x2").to_decimal(), "9");
    let env = Environment::new(vec![num("10"), num("20"), num("30")]);
    assert_eq!(env.retrieve_var("x3").to_decimal(), "30");
    assert!(env.retrieve_var("y").is_zero());
    assert!(env.retrieve_proc("p").is_none());
}

#[test]
fn environment_procedures() {
    let body = Stmt::Procedure("q".to_string());
    let mut env = Environment::new(vec![]);
    env.assign_proc("p", &body);
    assert!(matches!(env.retrieve_proc("p"), Some(Stmt::Procedure(n)) if n == "q"));
    assert!(env.retrieve_proc("q").is_none());
}

#[test]
fn interpreter_runs_a_built_program() {
    let pos = |l: &str| TokenPos { lexeme: l.to_string(), line: 1 };
    let program = Program::Declarations(vec![
        Decl::Procedure {
            name: "inc".to_string(),
            statement: Box::new(Stmt::VarAssignment {
                name: "x0".to_string(),
                expr: Expr::BinaryOp {
                    left: Literal::Identifier { content: "x0".to_string(), pos: pos("x0") },
                    operator: whilex::grammar::InfixOperator::Plus(pos("+")),
                    right: Literal::Number { content: num("5"), pos: pos("5") },
                },
            }),
        },
        Decl::Statement(Stmt::Block(vec![Stmt::Procedure("inc".to_string()), Stmt::Procedure("inc".to_string())])),
    ]);
    let mut interpreter = Interpreter { env: Environment::new(vec![num("1")]) };
    let r = interpreter.program(&program, 10);
    assert_eq!(r.unwrap().to_decimal(), "10");
    assert_eq!(interpreter.env.retrieve_var("x1").to_decimal(), "1");
    let mut interpreter = Interpreter { env: Environment::new(vec![]) };
    assert!(matches!(interpreter.program(&program, 1), Err(Error::StepLimit)));
}
