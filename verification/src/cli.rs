//! Decisions of the command line program.
use vstd::prelude::*;

use crate::config::{LoggerError, OracleError, Termination};

verus! {

/// The file format that the user asks for.
#[derive(Clone, Copy, Debug, PartialEq, Eq, Structural)]
pub enum FileFormat {
    /// Infer the format from the file extension.
    Infer,
    /// A DIMACS file.
    Dimacs,
    /// An OPB file.
    Opb,
}

/// The file format of an instance.
#[derive(Clone, Copy, Debug, PartialEq, Eq, Structural)]
pub enum InputFormat {
    Dimacs,
    Opb,
}

/// A file extension.
#[derive(Debug)]
pub struct Extension {
    /// The extension itself.
    pub name: String,
    /// The extension as it is shown in messages, with quotes.
    pub shown: String,
}

/// What can go wrong in the program.
#[derive(Debug)]
pub enum Error {
    /// The format cannot be inferred from the extension, given as it is shown.
    UnknownFileExtension(String),
    /// The format cannot be inferred for want of an extension.
    NoFileExtension,
    /// The input file is malformed, with the message of the parser.
    Parsing(String),
    /// Reading or writing failed, with the message of the system.
    IO(String),
    /// A logger failed.
    Logger(LoggerError),
    /// The oracle failed.
    Oracle(OracleError),
    /// The algorithm cannot handle the instance.
    InvalidInstance,
}

/// Whether an extension is that of a compressed file.
pub open spec fn is_compression(ext: Seq<char>) -> bool {
    ext == "gz"@ || ext == "bz2"@ || ext == "xz"@
}

/// The format of files with an extension.
pub open spec fn format_of(ext: Seq<char>) -> Option<InputFormat> {
    if ext == "mcnf"@ || ext == "bicnf"@ || ext == "wcnf"@ || ext == "cnf"@ || ext == "dimacs"@ {
        Some(InputFormat::Dimacs)
    } else if ext == "opb"@ {
        Some(InputFormat::Opb)
    } else {
        None
    }
}

/// The extension that tells the format: that of a compressed file is left out.
pub open spec fn telling_extension(
    ext: Option<Extension>,
    inner: Option<Extension>,
) -> Option<Extension> {
    match ext {
        Some(e) if is_compression(e.name@) => inner,
        _ => ext,
    }
}

/// The format of an input file, or the reason why there is none.
pub open spec fn chosen_format(
    file_format: FileFormat,
    ext: Option<Extension>,
    inner: Option<Extension>,
) -> Result<InputFormat, Error> {
    match file_format {
        FileFormat::Dimacs => Ok(InputFormat::Dimacs),
        FileFormat::Opb => Ok(InputFormat::Opb),
        FileFormat::Infer => match telling_extension(ext, inner) {
            None => Err(Error::NoFileExtension),
            Some(e) => match format_of(e.name@) {
                Some(f) => Ok(f),
                None => Err(Error::UnknownFileExtension(e.shown)),
            },
        },
    }
}

/// Checks whether an extension is that of a compressed file.
fn names_compression(ext: &String) -> (b: bool)
    ensures
        b == is_compression(ext@),
{
    *ext == "gz".to_string() || *ext == "bz2".to_string() || *ext == "xz".to_string()
}

/// Gets the format of files with an extension.
fn named_format(ext: &String) -> (f: Option<InputFormat>)
    ensures
        f == format_of(ext@),
{
    if *ext == "mcnf".to_string() || *ext == "bicnf".to_string() || *ext == "wcnf".to_string()
        || *ext == "cnf".to_string() || *ext == "dimacs".to_string() {
        Some(InputFormat::Dimacs)
    } else if *ext == "opb".to_string() {
        Some(InputFormat::Opb)
    } else {
        None
    }
}

/// Chooses the format of an input file. `ext` is the extension of the file, and
/// `inner` the extension that is left without it.
pub fn input_format(
    file_format: FileFormat,
    ext: Option<Extension>,
    inner: Option<Extension>,
) -> (r: Result<InputFormat, Error>)
    ensures
        r == chosen_format(file_format, ext, inner),
{
    match file_format {
        FileFormat::Dimacs => Ok(InputFormat::Dimacs),
        FileFormat::Opb => Ok(InputFormat::Opb),
        FileFormat::Infer => {
            let ext = match ext {
                Some(ext) => ext,
                None => {
                    return Err(Error::NoFileExtension);
                },
            };
            let ext = if names_compression(&ext.name) {
                // Strip compression extension
                match inner {
                    Some(ext) => ext,
                    None => {
                        return Err(Error::NoFileExtension);
                    },
                }
            } else {
                ext
            };
            match named_format(&ext.name) {
                Some(f) => Ok(f),
                None => Err(Error::UnknownFileExtension(ext.shown)),
            }
        },
    }
}

/// The text that describes an error.
pub open spec fn error_text(err: Error) -> Seq<char> {
    match err {
        Error::UnknownFileExtension(shown) => "Cannot infer file format from extension "@ + shown@,
        Error::NoFileExtension => "To infer the file format, the file needs to have a file extension"@,
        Error::Parsing(msg) => "Error while parsing the input file: "@ + msg@,
        Error::IO(msg) => "IO Error: "@ + msg@,
        Error::Logger(e) => "Logger Error: "@ + e.message@,
        Error::Oracle(e) => "Oracle Error: "@ + e.message@,
        Error::InvalidInstance => "Invalid instance"@,
    }
}

impl Error {
    /// The text that describes the error.
    pub fn message(&self) -> (text: String)
        ensures
            text@ == error_text(*self),
    {
        match self {
            Error::UnknownFileExtension(shown) => "Cannot infer file format from extension "
                .to_string().concat(shown.as_str()),
            Error::NoFileExtension =>
                "To infer the file format, the file needs to have a file extension".to_string(),
            Error::Parsing(msg) => "Error while parsing the input file: ".to_string().concat(
                msg.as_str(),
            ),
            Error::IO(msg) => "IO Error: ".to_string().concat(msg.as_str()),
            Error::Logger(e) => "Logger Error: ".to_string().concat(e.message.as_str()),
            Error::Oracle(e) => "Oracle Error: ".to_string().concat(e.message.as_str()),
            Error::InvalidInstance => "Invalid instance".to_string(),
        }
    }

    /// Turns the result of a parser into a result of the program.
    pub fn wrap_parser<I>(parser_result: Result<I, String>) -> (r: Result<I, Error>)
        ensures
            r == match parser_result {
                Ok(inst) => Ok::<I, Error>(inst),
                Err(err) => Err(Error::Parsing(err)),
            },
    {
        match parser_result {
            Ok(inst) => Ok(inst),
            Err(err) => Err(Error::Parsing(err)),
        }
    }

    /// Turns a termination that is a failure into an error.
    pub fn from_termination(term: Termination) -> (err: Error)
        requires
            term.fails(),
        ensures
            match term {
                Termination::LoggerError(e) => err == Error::Logger(e),
                Termination::OracleError(e) => err == Error::Oracle(e),
                _ => false,
            },
    {
        match term {
            Termination::LoggerError(e) => Error::Logger(e),
            Termination::OracleError(e) => Error::Oracle(e),
            _ => {
                assert(false);
                Error::InvalidInstance
            },
        }
    }
}

/// What an early termination means for the program: it fails exactly if the
/// termination is a failure.
pub fn outcome_of(term: Termination) -> (r: Result<(), Error>)
    ensures
        r == match term {
            Termination::LoggerError(e) => Err::<(), Error>(Error::Logger(e)),
            Termination::OracleError(e) => Err(Error::Oracle(e)),
            _ => Ok(()),
        },
{
    if term.is_error() {
        Err(Error::from_termination(term))
    } else {
        Ok(())
    }
}

/// Checks whether an instance has exactly two objectives.
pub fn require_bi_objective(n_objectives: usize) -> (r: Result<(), Error>)
    ensures
        r == (if n_objectives == 2 {
            Ok::<(), Error>(())
        } else {
            Err(Error::InvalidInstance)
        }),
{
    if n_objectives != 2 {
        return Err(Error::InvalidInstance);
    }
    Ok(())
}

} // verus!
