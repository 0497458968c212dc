//! An interpreter for a small language made of while loops.
//!
//! A source goes through the lexer (`lexer`), the parser (`parser`) and the
//! interpreter (`interpreter`); `execute` runs the whole pipeline, and
//! `Config::build` reads the command line.
pub mod environment;
pub mod error;
pub mod grammar;
pub mod interpreter;
pub mod lexer;
pub mod natural;
pub mod parser;

use crate::environment::{init_vars, EnvView, Environment};
use crate::error::{Error, ErrorView};
use crate::grammar::{DeclView, StmtView};
use crate::interpreter::{run_program, Interpreter};
use crate::lexer::{lex_end_line, lex_items, utf8_size, Lexer};
use crate::natural::{
    decimal_accepted, decimal_repr, digits_value, is_digit_char, lemma_decimal_repr_digits,
    lemma_decimal_roundtrip, without_plus, Natural,
};
use crate::parser::{parse_declarations, rview, with_eof, PState, Parser};
use vstd::prelude::*;
use vstd::string::StrSliceExecFns;
use vstd::string::StringExecFns;

verus! {

/// Whether a path names a program file: it ends in `.whl`.
pub open spec fn is_program_path(s: Seq<char>) -> bool {
    s.len() >= 4 && s.subrange(s.len() - 4, s.len() as int) == ".whl"@
}

/// The initial values that the arguments after the path give.
pub open spec fn arg_values(args: Seq<Seq<char>>) -> Seq<nat> {
    Seq::new((args.len() - 2) as nat, |i: int| digits_value(without_plus(args[i + 2])))
}

/// What the command line `args` (the program's own name first) gives: the
/// path of the program and its initial values, or the error that it holds.
pub open spec fn config_of(args: Seq<Seq<char>>) -> Result<(Seq<char>, Seq<nat>), ErrorView> {
    if args.len() < 2 {
        Err(ErrorView::MissingFilepath)
    } else if !is_program_path(args[1]) {
        Err(ErrorView::IncorrectFiletype)
    } else if exists|i: int| 2 <= i < args.len() && !decimal_accepted(#[trigger] args[i]) {
        Err(ErrorView::ParsingArguments)
    } else {
        Ok((args[1], arg_values(args)))
    }
}

/// The command line is read in full: it is accepted exactly when a path
/// ending in `.whl` follows the program's name and every later argument is
/// in decimal notation; then it gives that path and one initial value per
/// later argument, in order, each the number that its notation writes.
pub proof fn lemma_config_values(args: Seq<Seq<char>>)
    ensures
        config_of(args) is Ok <==> (args.len() >= 2 && is_program_path(args[1]) && forall|i: int|
            2 <= i < args.len() ==> decimal_accepted(#[trigger] args[i])),
        config_of(args) matches Ok((p, vs)) ==> {
            &&& p == args[1]
            &&& vs.len() == args.len() - 2
            &&& forall|k: int|
                0 <= k < vs.len() ==> #[trigger] vs[k] == digits_value(without_plus(args[k + 2]))
            &&& forall|k: int, n: nat|
                #![trigger vs[k], decimal_repr(n)]
                0 <= k < vs.len() && args[k + 2] == decimal_repr(n) ==> vs[k] == n
        },
{
    if let Ok((p, vs)) = config_of(args) {
        assert forall|k: int, n: nat|
            #![trigger vs[k], decimal_repr(n)]
            0 <= k < vs.len() && args[k + 2] == decimal_repr(n) implies vs[k] == n by {
            lemma_decimal_repr_digits(n);
            lemma_decimal_roundtrip(n);
            assert(is_digit_char(decimal_repr(n)[0]));
            assert(without_plus(decimal_repr(n)) == decimal_repr(n));
        }
    }
}

/// What the user entered: the path of a program file and its initial values.
pub struct Config {
    file_path: String,
    init: Vec<Natural>,
}

/// What a `Config` stands for: the path and the initial values.
pub open spec fn values_of(v: Seq<Natural>) -> Seq<nat> {
    v.map_values(|n: Natural| n@)
}

impl View for Config {
    type V = (Seq<char>, Seq<nat>);

    closed spec fn view(&self) -> (Seq<char>, Seq<nat>) {
        (self.file_path@, values_of(self.init@))
    }
}

fn is_program_file(s: &String) -> (r: bool)
    ensures
        r == is_program_path(s@),
{
    let n = s.as_str().unicode_len();
    if n < 4 {
        return false;
    }
    let tail = s.as_str().substring_char(n - 4, n).to_owned();
    tail == String::from_str(".whl")
}

impl Config {
    /// Reads the command line: the program's own name, the path of a `.whl`
    /// file, then the initial values in decimal notation.
    pub fn build(args: Vec<String>) -> (r: Result<Config, Error>)
        ensures
            rview(r) == config_of(args@.map_values(|s: String| s@)),
    {
        let ghost views = args@.map_values(|s: String| s@);
        if args.len() < 2 {
            return Err(Error::MissingFilepath);
        }
        if !is_program_file(&args[1]) {
            return Err(Error::IncorrectFiletype);
        }
        let file_path = args[1].clone();
        let mut init: Vec<Natural> = Vec::new();
        let mut i: usize = 2;
        while i < args.len()
            invariant
                2 <= i <= args.len(),
                views == args@.map_values(|s: String| s@),
                views.len() == args.len(),
                is_program_path(views[1]),
                file_path@ == views[1],
                forall|k: int| 2 <= k < i ==> decimal_accepted(#[trigger] views[k]),
                init.len() == i - 2,
                forall|k: int|
                    0 <= k < init.len() ==> (#[trigger] init@[k])@ == digits_value(
                        without_plus(views[k + 2]),
                    ),
            decreases args.len() - i,
        {
            match Natural::parse_decimal(args[i].as_str()) {
                Some(n) => {
                    init.push(n);
                },
                None => {
                    assert(!decimal_accepted(views[i as int]));
                    return Err(Error::ParsingArguments);
                },
            }
            i = i + 1;
        }
        assert(values_of(init@) == arg_values(views));
        Ok(Config { file_path, init })
    }

    /// The path of the program file.
    pub fn file_path(&self) -> (r: &String)
        ensures
            r@ == self@.0,
    {
        &self.file_path
    }

    /// Gives up the configuration for its initial values.
    pub fn into_init(self) -> (r: Vec<Natural>)
        ensures
            values_of(r@) == self@.1,
    {
        self.init
    }
}

/// What running a source gives: the errors that parsing recorded, and the
/// decimal notation of `x0` at the end, or the error that stopped it.
pub struct Run {
    pub errors: Vec<Error>,
    pub result: Result<String, Error>,
}

/// The environment that a run starts in: the initial values stored to `x1`,
/// `x2`, ..., and no procedure.
pub open spec fn start_env(init: Seq<nat>) -> EnvView {
    EnvView { vars: init_vars(init), procs: Map::<Seq<char>, StmtView>::empty() }
}

/// The declarations of a source and the errors recorded reading it, each
/// where the parser meets it, lexing errors among them.
pub open spec fn read_program(src: Seq<char>) -> (Seq<DeclView>, Seq<ErrorView>) {
    parse_declarations(
        with_eof(lex_items(src, 0, 1), lex_end_line(src, 0, 1)),
        PState { pos: 0, last_line: 1 },
        Seq::empty(),
        Seq::empty(),
    )
}

/// Lexes, parses and runs `source` with the initial values `init` and at
/// most `fuel` steps.
pub fn execute(source: &str, init: Vec<Natural>, fuel: u64) -> (r: Run)
    requires
        utf8_size(source@) < usize::MAX,
    ensures
        ({
            let (decls, errs) = read_program(source@);
            &&& r.errors@.map_values(|e: Error| e@) == errs
            &&& errs.len() > 0 ==> rview(r.result) == Err::<Seq<char>, ErrorView>(
                ErrorView::ParsingError,
            )
            &&& errs.len() == 0 ==> rview(r.result) == match run_program(
                start_env(values_of(init@)),
                decls,
                fuel as nat,
            ) {
                Ok(n) => Ok::<Seq<char>, ErrorView>(decimal_repr(n)),
                Err(e) => Err(e),
            }
        }),
{
    let lexer = Lexer::new(source);
    let environment = Environment::new(init);
    let mut parser = Parser::new(lexer);
    let program = parser.program();
    let errors = parser.into_errors();
    let result = match program {
        Err(e) => Err(e),
        Ok(program) => {
            let mut interpreter = Interpreter { env: environment };
            match interpreter.program(&program, fuel) {
                Ok(n) => Ok(n.to_decimal()),
                Err(e) => Err(e),
            }
        },
    };
    Run { errors, result }
}

} // verus!
