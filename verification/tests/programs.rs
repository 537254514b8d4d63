use scuttle::cli::{
    input_format, outcome_of, require_bi_objective, Error, Extension, FileFormat, InputFormat,
};
use scuttle::config::{LoggerError, OracleError, Termination};

fn ext(name: &str) -> Option<Extension> {
    Some(Extension { name: name.to_string(), shown: format!("{:?}", name) })
}

#[test]
fn formats_that_are_asked_for() {
    assert!(matches!(
        input_format(FileFormat::Dimacs, ext("opb"), None),
        Ok(InputFormat::Dimacs)
    ));
    assert!(matches!(input_format(FileFormat::Opb, None, None), Ok(InputFormat::Opb)));
}

#[test]
fn formats_that_are_inferred() {
    for name in ["mcnf", "bicnf", "wcnf", "cnf", "dimacs"] {
        assert!(matches!(
            input_format(FileFormat::Infer, ext(name), None),
            Ok(InputFormat::Dimacs)
        ));
    }
    assert!(matches!(
        input_format(FileFormat::Infer, ext("opb"), ext("cnf")),
        Ok(InputFormat::Opb)
    ));
}

#[test]
fn compressed_files_are_told_by_the_inner_extension() {
    for compr in ["gz", "bz2", "xz"] {
        assert!(matches!(
            input_format(FileFormat::Infer, ext(compr), ext("opb")),
            Ok(InputFormat::Opb)
        ));
        assert!(matches!(
            input_format(FileFormat::Infer, ext(compr), None),
            Err(Error::NoFileExtension)
        ));
    }
    match input_format(FileFormat::Infer, ext("gz"), ext("gz")) {
        Err(Error::UnknownFileExtension(shown)) => assert_eq!(shown, "\"gz\""),
        _ => panic!("expected an unknown extension"),
    }
}

#[test]
fn unknown_and_missing_extensions() {
    assert!(matches!(
        input_format(FileFormat::Infer, None, None),
        Err(Error::NoFileExtension)
    ));
    let err = match input_format(FileFormat::Infer, ext("txt"), ext("cnf")) {
        Err(err) => err,
        Ok(_) => panic!("expected an unknown extension"),
    };
    assert_eq!(err.message(), "Cannot infer file format from extension \"txt\"");
    assert!(input_format(FileFormat::Infer, ext("CNF"), None).is_err());
}

#[test]
fn errors_have_messages() {
    assert_eq!(
        Error::NoFileExtension.message(),
        "To infer the file format, the file needs to have a file extension"
    );
    assert_eq!(
        Error::Parsing("line 3".to_string()).message(),
        "Error while parsing the input file: line 3"
    );
    assert_eq!(Error::IO("broken pipe".to_string()).message(), "IO Error: broken pipe");
    assert_eq!(
        Error::Logger(LoggerError { message: "closed".to_string() }).message(),
        "Logger Error: closed"
    );
    assert_eq!(
        Error::Oracle(OracleError { message: "api".to_string() }).message(),
        "Oracle Error: api"
    );
    assert_eq!(Error::InvalidInstance.message(), "Invalid instance");
}

#[test]
fn parser_results_are_wrapped() {
    assert!(matches!(Error::wrap_parser(Ok(5)), Ok(5)));
    let r: Result<u8, Error> = Error::wrap_parser(Err("bad".to_string()));
    match r {
        Err(Error::Parsing(msg)) => assert_eq!(msg, "bad"),
        _ => panic!("expected a parsing error"),
    }
}

#[test]
fn terminations_decide_the_outcome() {
    assert!(outcome_of(Termination::PPLimit).is_ok());
    assert!(outcome_of(Termination::Callback).is_ok());
    assert!(outcome_of(Termination::VarLimit).is_ok());
    assert!(outcome_of(Termination::UnsupportedConstraint).is_ok());
    match outcome_of(Termination::LoggerError(LoggerError { message: "a".to_string() })) {
        Err(Error::Logger(e)) => assert_eq!(e.message, "a"),
        _ => panic!("expected the failure of the logger"),
    }
    match outcome_of(Termination::OracleError(OracleError { message: "b".to_string() })) {
        Err(Error::Oracle(e)) => assert_eq!(e.message, "b"),
        _ => panic!("expected the failure of the oracle"),
    }
    assert!(matches!(
        Error::from_termination(Termination::OracleError(OracleError {
            message: String::new()
        })),
        Error::Oracle(_)
    ));
}

#[test]
fn two_objectives_are_required() {
    assert!(require_bi_objective(2).is_ok());
    assert!(matches!(require_bi_objective(1), Err(Error::InvalidInstance)));
    assert!(matches!(require_bi_objective(3), Err(Error::InvalidInstance)));
}
