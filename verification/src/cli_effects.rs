//! What the decisions of the command line program are, said of their inputs and
//! results.
use vstd::prelude::*;

use crate::cli::{
    input_format, outcome_of, require_bi_objective, Error, Extension, FileFormat, InputFormat,
};
use crate::config::Termination;

verus! {

/// A format that the user asks for is taken, whatever the file is called.
pub proof fn law_explicit_format_is_taken(
    format: FileFormat,
    ext: Option<Extension>,
    inner: Option<Extension>,
    r: Result<InputFormat, Error>,
)
    requires
        call_ensures(input_format, (format, ext, inner), r),
    ensures
        format is Dimacs ==> r == Ok::<InputFormat, Error>(InputFormat::Dimacs),
        format is Opb ==> r == Ok::<InputFormat, Error>(InputFormat::Opb),
{
}

/// A file without an extension, or one that is compressed and has no other
/// extension, has no format.
pub proof fn law_format_needs_an_extension(
    ext: Option<Extension>,
    inner: Option<Extension>,
    r: Result<InputFormat, Error>,
)
    requires
        call_ensures(input_format, (FileFormat::Infer, ext, inner), r),
    ensures
        ext is None ==> r == Err::<InputFormat, Error>(Error::NoFileExtension),
        ext is Some && inner is None && (ext->0.name@ == "gz"@ || ext->0.name@ == "bz2"@
            || ext->0.name@ == "xz"@) ==> r == Err::<InputFormat, Error>(Error::NoFileExtension),
        r == Err::<InputFormat, Error>(Error::NoFileExtension) ==> ext is None || inner is None,
{
}

/// Compressing a file does not change its format: with the extension of a
/// compressed file in front, the format is that of the file inside, unless that
/// is a compressed file again.
pub proof fn law_compression_keeps_the_format(
    ext: Extension,
    inner: Extension,
    below: Option<Extension>,
    packed: Result<InputFormat, Error>,
    plain: Result<InputFormat, Error>,
)
    requires
        ext.name@ == "gz"@ || ext.name@ == "bz2"@ || ext.name@ == "xz"@,
        inner.name@ != "gz"@,
        inner.name@ != "bz2"@,
        inner.name@ != "xz"@,
        call_ensures(input_format, (FileFormat::Infer, Some(ext), Some(inner)), packed),
        call_ensures(input_format, (FileFormat::Infer, Some(inner), below), plain),
    ensures
        packed == plain,
{
}

/// The extension alone decides on the format of a file that is not compressed:
/// those of the clause formats and the one of the pseudo-boolean format are
/// known, and any other one is shown in the error.
pub proof fn law_known_extensions(
    ext: Extension,
    inner: Option<Extension>,
    r: Result<InputFormat, Error>,
)
    requires
        ext.name@ != "gz"@,
        ext.name@ != "bz2"@,
        ext.name@ != "xz"@,
        call_ensures(input_format, (FileFormat::Infer, Some(ext), inner), r),
    ensures
        r matches Ok(f) && f is Dimacs <==> ext.name@ == "mcnf"@ || ext.name@ == "bicnf"@
            || ext.name@ == "wcnf"@ || ext.name@ == "cnf"@ || ext.name@ == "dimacs"@,
        r matches Ok(f) && f is Opb <==> ext.name@ == "opb"@,
        r is Err ==> r->Err_0 == Error::UnknownFileExtension(ext.shown),
{
    reveal_strlit("mcnf");
    reveal_strlit("bicnf");
    reveal_strlit("wcnf");
    reveal_strlit("cnf");
    reveal_strlit("dimacs");
    reveal_strlit("opb");
    assert("opb"@[0] == 'o');
    assert("mcnf"@[0] == 'm');
    assert("bicnf"@[0] == 'b');
    assert("wcnf"@[0] == 'w');
    assert("cnf"@[0] == 'c');
    assert("dimacs"@[0] == 'd');
}

/// A message names what has failed and ends with the text that was given.
pub proof fn law_messages(err: &Error, text: String)
    requires
        call_ensures(Error::message, (err,), text),
    ensures
        *err matches Error::UnknownFileExtension(shown) ==> text@
            == "Cannot infer file format from extension "@ + shown@,
        *err is NoFileExtension ==> text@
            == "To infer the file format, the file needs to have a file extension"@,
        *err matches Error::Parsing(msg) ==> text@ == "Error while parsing the input file: "@
            + msg@,
        *err matches Error::IO(msg) ==> text@ == "IO Error: "@ + msg@,
        *err matches Error::Logger(e) ==> text@ == "Logger Error: "@ + e.message@,
        *err matches Error::Oracle(e) ==> text@ == "Oracle Error: "@ + e.message@,
        *err is InvalidInstance ==> text@ == "Invalid instance"@,
{
}

/// The program fails exactly if the logger or the oracle does, with their error.
/// A limit or a callback that ends solving is no failure.
pub proof fn law_limits_are_no_failures(term: Termination, r: Result<(), Error>)
    requires
        call_ensures(outcome_of, (term,), r),
    ensures
        r is Err <==> term is LoggerError || term is OracleError,
        term matches Termination::LoggerError(e) ==> r->Err_0 == Error::Logger(e),
        term matches Termination::OracleError(e) ==> r->Err_0 == Error::Oracle(e),
        forall|err: Error| #[trigger]
            call_ensures(Error::from_termination, (term,), err) && r is Err ==> err == r->Err_0,
{
}

/// What a parser gives is kept, and its message is that of the error.
pub proof fn law_parsers_are_wrapped<I>(given: Result<I, String>, r: Result<I, Error>)
    requires
        call_ensures(Error::wrap_parser::<I>, (given,), r),
    ensures
        given is Ok <==> r is Ok,
        given is Ok ==> r->Ok_0 == given->Ok_0,
        given is Err ==> r->Err_0 == Error::Parsing(given->Err_0),
{
}

/// Two objectives are accepted, and neither fewer nor more.
pub proof fn law_two_objectives(n: usize, r: Result<(), Error>)
    requires
        call_ensures(require_bi_objective, (n,), r),
    ensures
        r is Ok ==> n == 2,
        r is Err ==> n < 2 || n > 2,
        r is Err ==> r->Err_0 is InvalidInstance,
{
}

} // verus!
