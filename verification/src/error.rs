//! The error type of the library and its mathematical view.

use vstd::prelude::*;
use vstd::string::StringExecFns;

verus! {

broadcast use vstd::string::group_string_axioms;

/// `std::io::Error`, carried opaquely by `DotEnvError::Io`.
#[verifier::external_type_specification]
#[verifier::external_body]
pub struct ExIoError(std::io::Error);

/// Errors that can occur when loading or accessing environment variables.
#[derive(Debug)]
pub enum DotEnvError {
    /// An I/O error occurred while reading a file.
    Io(std::io::Error),
    /// A parse error occurred at a specific line.
    Parse {
        /// The 1-based line number where the error occurred.
        line: usize,
        /// A description of the parse error.
        message: String,
    },
    /// One or more required variables are missing.
    MissingVars(Vec<String>),
    /// A value could not be converted to the requested type.
    TypeConversion {
        /// The environment variable key.
        key: String,
        /// The expected type name.
        expected: &'static str,
        /// The actual value that failed conversion.
        value: String,
    },
    /// A variable interpolation error occurred (e.g., circular reference).
    InterpolationError {
        /// The key being resolved.
        key: String,
        /// The reference that caused the error.
        references: String,
    },
}

/// What a `DotEnvError` says, with its strings taken as character sequences.
pub enum ErrorView {
    Io,
    Parse { line: nat, message: Seq<char> },
    MissingVars(Seq<Seq<char>>),
    TypeConversion { key: Seq<char>, expected: Seq<char>, value: Seq<char> },
    InterpolationError { key: Seq<char>, references: Seq<char> },
}

impl View for DotEnvError {
    type V = ErrorView;

    open spec fn view(&self) -> ErrorView {
        match self {
            DotEnvError::Io(_) => ErrorView::Io,
            DotEnvError::Parse { line, message } => ErrorView::Parse {
                line: *line as nat,
                message: message@,
            },
            DotEnvError::MissingVars(vars) => ErrorView::MissingVars(vars.deep_view()),
            DotEnvError::TypeConversion { key, expected, value } => ErrorView::TypeConversion {
                key: key@,
                expected: expected@,
                value: value@,
            },
            DotEnvError::InterpolationError { key, references } =>
                ErrorView::InterpolationError { key: key@, references: references@ },
        }
    }
}


impl From<std::io::Error> for DotEnvError {
    fn from(err: std::io::Error) -> (res: Self) {
        DotEnvError::Io(err)
    }
}

impl vstd::std_specs::convert::FromSpecImpl<std::io::Error> for DotEnvError {
    open spec fn obeys_from_spec() -> bool {
        true
    }

    open spec fn from_spec(v: std::io::Error) -> Self {
        DotEnvError::Io(v)
    }
}


/// The character of the decimal digit `d`.
pub open spec fn digit_char(d: nat) -> char {
    ((('0' as u32) + d) as u32) as char
}

/// The decimal digits of `n`.
pub open spec fn decimal(n: nat) -> Seq<char>
    decreases n,
{
    if n < 10 {
        seq![digit_char(n)]
    } else {
        decimal(n / 10).push(digit_char(n % 10))
    }
}

/// The texts `parts` with `sep` between each two of them.
pub open spec fn join_texts(parts: Seq<Seq<char>>, sep: Seq<char>) -> Seq<char>
    decreases parts.len(),
{
    if parts.len() == 0 {
        seq![]
    } else if parts.len() == 1 {
        parts[0]
    } else {
        join_texts(parts.drop_last(), sep) + sep + parts.last()
    }
}

/// The text that `{:?}` gives for a string: quoted, with its special
/// characters escaped.
pub uninterp spec fn debug_quoted(s: Seq<char>) -> Seq<char>;

/// `format!("{:?}", s)` for a string: its debug text.
#[verifier::external_body]
fn debug_text(s: &str) -> (res: String)
    ensures
        res@ == debug_quoted(s@),
{
    format!("{s:?}")
}

/// `std::io::Error`'s `Display` text. It comes from the operating system's
/// description of the error, so nothing is stated of it.
#[verifier::external_body]
fn io_error_text(err: &std::io::Error) -> String {
    err.to_string()
}

/// Append the decimal digits of `n` to `s`.
fn push_decimal(s: &mut String, n: usize)
    ensures
        final(s)@ == old(s)@ + decimal(n as nat),
    decreases n,
{
    if n >= 10 {
        push_decimal(s, n / 10);
    }
    let d = (n % 10) as u8;
    let c = (48u8 + d) as char;
    assert(c == digit_char((n % 10) as nat)) by {
        assert((48u8 + d) as u32 == ('0' as u32) + (n % 10) as nat);
    }
    let ghost before = s@;
    s.push(c);
    proof {
        if n >= 10 {
            assert(s@ =~= old(s)@ + decimal(n as nat));
        } else {
            assert(s@ =~= old(s)@ + decimal(n as nat));
        }
    }
}

/// The message of an error: what its `Display` shows.
pub open spec fn message_of(v: ErrorView, text: Seq<char>) -> bool {
    match v {
        ErrorView::Io => exists|t: Seq<char>| text == "I/O error: "@ + t,
        ErrorView::Parse { line, message } => text == "parse error at line "@ + decimal(line) + ": "@
            + message,
        ErrorView::MissingVars(vars) => text == "missing required variables: "@ + join_texts(
            vars,
            ", "@,
        ),
        ErrorView::TypeConversion { key, expected, value } => text == "cannot convert "@ + key
            + "="@ + debug_quoted(value) + " to type "@ + expected,
        ErrorView::InterpolationError { key, references } => text
            == "circular reference resolving "@ + key + ": references "@ + references,
    }
}

impl DotEnvError {
    /// The message of this error, as it is displayed.
    pub fn to_message(&self) -> (res: String)
        ensures
            message_of(self@, res@),
    {
        let mut out = String::new();
        match self {
            DotEnvError::Io(err) => {
                out.append("I/O error: ");
                let t = io_error_text(err);
                out.append(t.as_str());
                assert(out@ == "I/O error: "@ + t@);
            },
            DotEnvError::Parse { line, message } => {
                out.append("parse error at line ");
                push_decimal(&mut out, *line);
                out.append(": ");
                out.append(message.as_str());
            },
            DotEnvError::MissingVars(vars) => {
                out.append("missing required variables: ");
                let ghost start = out@;
                let mut i: usize = 0;
                assert(vars.deep_view().take(0) =~= Seq::<Seq<char>>::empty());
                assert(out@ =~= start + join_texts(vars.deep_view().take(0), ", "@));
                while i < vars.len()
                    invariant
                        i <= vars@.len(),
                        out@ == start + join_texts(vars.deep_view().take(i as int), ", "@),
                    decreases vars@.len() - i,
                {
                    let ghost before = out@;
                    let ghost parts = vars.deep_view().take(i as int + 1);
                    assert(parts.drop_last() =~= vars.deep_view().take(i as int));
                    assert(parts.last() == vars@[i as int]@);
                    if i > 0 {
                        out.append(", ");
                    }
                    out.append(vars[i].as_str());
                    if i == 0 {
                        assert(parts.len() == 1);
                        assert(join_texts(parts, ", "@) == parts[0]);
                        assert(out@ =~= start + join_texts(parts, ", "@));
                    } else {
                        assert(out@ =~= start + join_texts(parts, ", "@));
                    }
                    i += 1;
                }
                assert(vars.deep_view().take(vars@.len() as int) =~= vars.deep_view());
            },
            DotEnvError::TypeConversion { key, expected, value } => {
                out.append("cannot convert ");
                out.append(key.as_str());
                out.append("=");
                let d = debug_text(value.as_str());
                out.append(d.as_str());
                out.append(" to type ");
                out.append(expected);
            },
            DotEnvError::InterpolationError { key, references } => {
                out.append("circular reference resolving ");
                out.append(key.as_str());
                out.append(": references ");
                out.append(references.as_str());
            },
        }
        out
    }
}

}
