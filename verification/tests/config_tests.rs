use whilex::error::Error;
use whilex::Config;

fn args(list: &[&str]) -> Vec<String> {
    list.iter().map(|s| s.to_string()).collect()
}

#[test]
fn build_reads_path_and_values() {
    let config = Config::build(args(&["whilex", "path/file.whl", "10", "20", "30"])).unwrap();
    assert_eq!(config.file_path(), "path/file.whl");
    let init: Vec<String> = config.into_init().iter().map(|n| n.to_decimal()).collect();
    assert_eq!(init, vec!["10", "20", "30"]);
}

#[test]
fn build_without_values() {
    let config = Config::build(args(&["whilex", "a.whl"])).unwrap();
    assert!(config.into_init().is_empty());
}

#[test]
fn build_needs_a_path() {
    assert!(matches!(Config::build(args(&["whilex"])), Err(Error::MissingFilepath)));
    assert!(matches!(Config::build(args(&[])), Err(Error::MissingFilepath)));
}

#[test]
fn build_needs_the_whl_extension() {
    assert!(matches!(Config::build(args(&["whilex", "file.while"])), Err(Error::IncorrectFiletype)));
    assert!(matches!(Config::build(args(&["whilex", "whl"])), Err(Error::IncorrectFiletype)));
    assert!(matches!(Config::build(args(&["whilex", ".whl"])), Ok(_)));
}

#[test]
fn build_refuses_bad_values() {
    assert!(matches!(Config::build(args(&["whilex", "f.whl", "1", "x"])), Err(Error::ParsingArguments)));
    assert!(matches!(Config::build(args(&["whilex", "f.whl", "-1"])), Err(Error::ParsingArguments)));
    assert!(matches!(Config::build(args(&["whilex", "f.whl", ""])), Err(Error::ParsingArguments)));
}

#[test]
fn error_messages() {
    assert_eq!(Error::FileNotFound("a.whl".to_string()).message(), "Error: Could not find a file at `a.whl`.");
    assert_eq!(Error::IncorrectFiletype.message(), "Error: The provided file does not end in `.whl`.");
    assert_eq!(Error::MissingFilepath.message(), "Error: No filepath was provided.");
    assert_eq!(Error::ParsingArguments.message(), "Error: Could not parse the provided initial variables.");
    assert_eq!(Error::UnknownSymbol(12).message(), "Error: Unknown symbol in line 12.");
    assert_eq!(Error::ExpectedExpression(3).message(), "Error: Expected an expression in line 3.");
    assert_eq!(Error::MismatchedTypes(4).message(), "Error: Found unexpected type in line 4.");
    assert_eq!(Error::InvalidAssignmentTarget(5).message(), "Error: Invalid assignment target in line 5.");
    assert_eq!(Error::ExpectedToken(";".to_string(), 6).message(), "Error: Expected ; in line 6.");
    assert_eq!(Error::NotAVariable(7).message(), "Error: Expected a variable in line 7.");
    assert_eq!(Error::ParsingError.message(), "Error: The program could not be parsed.");
    assert_eq!(Error::UndefinedProcedure("p".to_string()).message(), "Error: The procedure `p` is called before it is declared.");
    assert_eq!(Error::StepLimit.message(), "Error: The program did not finish within its step limit.");
    assert_eq!(Error::UnknownSymbol(1234567890).duplicate().message(), "Error: Unknown symbol in line 1234567890.");
}
