//! The errors of every stage: arguments, lexing, parsing and running.
use crate::natural::decimal_repr;
use vstd::prelude::*;
use vstd::string::StringExecFns;

verus! {

/// An error of any stage of the pipeline.
#[derive(Debug)]
pub enum Error {
    // Errors of the command line and of reading the program.
    FileNotFound(String),
    IncorrectFiletype,
    MissingFilepath,
    ParsingArguments,
    // Lexing errors, with the line.
    UnknownSymbol(usize),
    // Parsing errors, with the line of the last token read.
    ExpectedExpression(usize),
    InvalidAssignmentTarget(usize),
    ExpectedToken(String, usize),
    NotAVariable(usize),
    ParsingError,
    // Runtime errors.
    MismatchedTypes(usize),
    UndefinedProcedure(String),
    StepLimit,
}

/// What an `Error` holds, with its strings as character sequences.
pub enum ErrorView {
    FileNotFound(Seq<char>),
    IncorrectFiletype,
    MissingFilepath,
    ParsingArguments,
    UnknownSymbol(nat),
    ExpectedExpression(nat),
    InvalidAssignmentTarget(nat),
    ExpectedToken(Seq<char>, nat),
    NotAVariable(nat),
    ParsingError,
    MismatchedTypes(nat),
    UndefinedProcedure(Seq<char>),
    StepLimit,
}

impl View for Error {
    type V = ErrorView;

    open spec fn view(&self) -> ErrorView {
        match self {
            Error::FileNotFound(s) => ErrorView::FileNotFound(s@),
            Error::IncorrectFiletype => ErrorView::IncorrectFiletype,
            Error::MissingFilepath => ErrorView::MissingFilepath,
            Error::ParsingArguments => ErrorView::ParsingArguments,
            Error::UnknownSymbol(l) => ErrorView::UnknownSymbol(*l as nat),
            Error::ExpectedExpression(l) => ErrorView::ExpectedExpression(*l as nat),
            Error::InvalidAssignmentTarget(l) => ErrorView::InvalidAssignmentTarget(*l as nat),
            Error::ExpectedToken(s, l) => ErrorView::ExpectedToken(s@, *l as nat),
            Error::NotAVariable(l) => ErrorView::NotAVariable(*l as nat),
            Error::ParsingError => ErrorView::ParsingError,
            Error::MismatchedTypes(l) => ErrorView::MismatchedTypes(*l as nat),
            Error::UndefinedProcedure(s) => ErrorView::UndefinedProcedure(s@),
            Error::StepLimit => ErrorView::StepLimit,
        }
    }
}

/// What a sequence of errors stands for.
pub open spec fn errors_view(v: Seq<Error>) -> Seq<ErrorView> {
    v.map_values(|e: Error| e@)
}

/// The message that the program prints for an error.
pub open spec fn error_message(e: ErrorView) -> Seq<char> {
    match e {
        ErrorView::FileNotFound(s) => "Error: Could not find a file at `"@ + s + "`."@,
        ErrorView::IncorrectFiletype => "Error: The provided file does not end in `.whl`."@,
        ErrorView::MissingFilepath => "Error: No filepath was provided."@,
        ErrorView::ParsingArguments => "Error: Could not parse the provided initial variables."@,
        ErrorView::UnknownSymbol(l) => "Error: Unknown symbol in line "@ + decimal_repr(l) + "."@,
        ErrorView::ExpectedExpression(l) => "Error: Expected an expression in line "@
            + decimal_repr(l) + "."@,
        ErrorView::MismatchedTypes(l) => "Error: Found unexpected type in line "@ + decimal_repr(l)
            + "."@,
        ErrorView::InvalidAssignmentTarget(l) => "Error: Invalid assignment target in line "@
            + decimal_repr(l) + "."@,
        ErrorView::ExpectedToken(t, l) => "Error: Expected "@ + t + " in line "@ + decimal_repr(l)
            + "."@,
        ErrorView::NotAVariable(l) => "Error: Expected a variable in line "@ + decimal_repr(l)
            + "."@,
        ErrorView::ParsingError => "Error: The program could not be parsed."@,
        ErrorView::UndefinedProcedure(s) => "Error: The procedure `"@ + s
            + "` is called before it is declared."@,
        ErrorView::StepLimit => "Error: The program did not finish within its step limit."@,
    }
}

// The text of one decimal digit.
fn digit_str(d: usize) -> (r: &'static str)
    requires
        d < 10,
    ensures
        r@ == seq![crate::natural::digit_char(d as nat)],
{
    proof {
        reveal_strlit("0");
        reveal_strlit("1");
        reveal_strlit("2");
        reveal_strlit("3");
        reveal_strlit("4");
        reveal_strlit("5");
        reveal_strlit("6");
        reveal_strlit("7");
        reveal_strlit("8");
        reveal_strlit("9");
    }
    if d == 0 {
        "0"
    } else if d == 1 {
        "1"
    } else if d == 2 {
        "2"
    } else if d == 3 {
        "3"
    } else if d == 4 {
        "4"
    } else if d == 5 {
        "5"
    } else if d == 6 {
        "6"
    } else if d == 7 {
        "7"
    } else if d == 8 {
        "8"
    } else {
        "9"
    }
}

/// The decimal notation of `n`.
pub fn usize_decimal(n: usize) -> (r: String)
    ensures
        r@ == decimal_repr(n as nat),
    decreases n,
{
    if n < 10 {
        String::from_str(digit_str(n))
    } else {
        let mut r = usize_decimal(n / 10);
        r.append(digit_str(n % 10));
        r
    }
}

fn line_message(prefix: &str, line: usize) -> (r: String)
    ensures
        r@ == prefix@ + decimal_repr(line as nat) + "."@,
{
    let mut r = String::from_str(prefix);
    let number = usize_decimal(line);
    r.append(number.as_str());
    r.append(".");
    r
}

impl Error {
    /// A copy of the error.
    pub fn duplicate(&self) -> (r: Error)
        ensures
            r@ == self@,
    {
        match self {
            Error::FileNotFound(s) => Error::FileNotFound(s.clone()),
            Error::IncorrectFiletype => Error::IncorrectFiletype,
            Error::MissingFilepath => Error::MissingFilepath,
            Error::ParsingArguments => Error::ParsingArguments,
            Error::UnknownSymbol(l) => Error::UnknownSymbol(*l),
            Error::ExpectedExpression(l) => Error::ExpectedExpression(*l),
            Error::InvalidAssignmentTarget(l) => Error::InvalidAssignmentTarget(*l),
            Error::ExpectedToken(s, l) => Error::ExpectedToken(s.clone(), *l),
            Error::NotAVariable(l) => Error::NotAVariable(*l),
            Error::ParsingError => Error::ParsingError,
            Error::MismatchedTypes(l) => Error::MismatchedTypes(*l),
            Error::UndefinedProcedure(s) => Error::UndefinedProcedure(s.clone()),
            Error::StepLimit => Error::StepLimit,
        }
    }

    /// The message that describes the error to the user.
    pub fn message(&self) -> (r: String)
        ensures
            r@ == error_message(self@),
    {
        match self {
            Error::FileNotFound(s) => {
                let mut r = String::from_str("Error: Could not find a file at `");
                r.append(s.as_str());
                r.append("`.");
                r
            },
            Error::IncorrectFiletype => String::from_str(
                "Error: The provided file does not end in `.whl`.",
            ),
            Error::MissingFilepath => String::from_str("Error: No filepath was provided."),
            Error::ParsingArguments => String::from_str(
                "Error: Could not parse the provided initial variables.",
            ),
            Error::UnknownSymbol(l) => line_message("Error: Unknown symbol in line ", *l),
            Error::ExpectedExpression(l) => line_message(
                "Error: Expected an expression in line ",
                *l,
            ),
            Error::MismatchedTypes(l) => line_message("Error: Found unexpected type in line ", *l),
            Error::InvalidAssignmentTarget(l) => line_message(
                "Error: Invalid assignment target in line ",
                *l,
            ),
            Error::ExpectedToken(t, l) => {
                let mut r = String::from_str("Error: Expected ");
                r.append(t.as_str());
                let rest = line_message(" in line ", *l);
                r.append(rest.as_str());
                r
            },
            Error::NotAVariable(l) => line_message("Error: Expected a variable in line ", *l),
            Error::ParsingError => String::from_str("Error: The program could not be parsed."),
            Error::UndefinedProcedure(s) => {
                let mut r = String::from_str("Error: The procedure `");
                r.append(s.as_str());
                r.append("` is called before it is declared.");
                r
            },
            Error::StepLimit => String::from_str(
                "Error: The program did not finish within its step limit.",
            ),
        }
    }
}

} // verus!
