//! The errors that the library reports.
use vstd::prelude::*;
use vstd::string::*;

verus! {

/// What went wrong, with the values that say where.
#[derive(Clone, Debug, PartialEq, Eq)]
pub enum LogError {
    UnableToReadLine { line: usize, message: String },
    InvalidFormatRegex { message: String },
    UnknownFormatCapture { name: String },
    FormatMissingCapture { name: String },
    PathExists { path: String, root: String },
    CannotReadSourceFile { path: String, message: String },
    CannotReadLogFile { path: String, message: String },
    NoLogStatements,
    CannotAccessPath { path: String, message: String },
    UnsupportedFileType { name: String },
    NoLogMessages,
    TooManyStatements { path: String, message: String },
}

impl LogError {
    /// Whether this is only a warning: the run goes on without the path concerned.
    pub fn is_warning(&self) -> (r: bool)
        ensures
            r == (self is CannotReadSourceFile || self is CannotAccessPath || self is TooManyStatements),
    {
        match self {
            LogError::CannotReadSourceFile { .. } | LogError::CannotAccessPath { .. }
            | LogError::TooManyStatements { .. } => true,
            _ => false,
        }
    }

    /// A hint on how to mend the error, where there is one.
    pub fn help(&self) -> (r: Option<&'static str>)
        ensures
            r is Some <==> (self is UnknownFormatCapture || self is FormatMissingCapture
                || self is NoLogStatements || self is NoLogMessages),
    {
        match self {
            LogError::UnknownFormatCapture { .. } => Some(
                "The supported captures are: timestamp, thread, level, file, line, method, and body",
            ),
            LogError::FormatMissingCapture { .. } => Some(
                "A log format must have a 'body' capture at a minimum",
            ),
            LogError::NoLogStatements => Some(
                "Make sure the source path is valid and refers to a tree with supported source code and logging statements",
            ),
            LogError::NoLogMessages => Some("Make sure the log format matches the input"),
            _ => None,
        }
    }

    /// A one-line description of the error.
    pub fn message(&self) -> String {
        match self {
            LogError::UnableToReadLine { line, .. } => {
                let mut s = String::from_str("unable to read line ");
                s.append(number_text(*line).as_str());
                s
            },
            LogError::InvalidFormatRegex { .. } => String::from_str(
                "invalid log format regular expression",
            ),
            LogError::UnknownFormatCapture { name } => {
                let mut s = String::from_str("unknown capture in log format: ");
                s.append(name.as_str());
                s
            },
            LogError::FormatMissingCapture { name } => {
                let mut s = String::from_str("log format is missing capture: ");
                s.append(name.as_str());
                s
            },
            LogError::PathExists { path, root } => {
                let mut s = String::from_str("\"");
                s.append(path.as_str());
                s.append("\" is already covered by \"");
                s.append(root.as_str());
                s.append("\"");
                s
            },
            LogError::CannotReadSourceFile { path, .. } => {
                let mut s = String::from_str("cannot read source file \"");
                s.append(path.as_str());
                s.append("\"");
                s
            },
            LogError::CannotReadLogFile { path, .. } => {
                let mut s = String::from_str("cannot read log file \"");
                s.append(path.as_str());
                s.append("\"");
                s
            },
            LogError::NoLogStatements => String::from_str("no log statements found"),
            LogError::CannotAccessPath { path, .. } => {
                let mut s = String::from_str("cannot access path \"");
                s.append(path.as_str());
                s.append("\"");
                s
            },
            LogError::UnsupportedFileType { name } => {
                let mut s = String::from_str("unsupported file type \"");
                s.append(name.as_str());
                s.append("\"");
                s
            },
            LogError::NoLogMessages => String::from_str("no log messages found in input"),
            LogError::TooManyStatements { path, .. } => {
                let mut s = String::from_str("cannot combine the statements of \"");
                s.append(path.as_str());
                s.append("\"");
                s
            },
        }
    }
}

/// The decimal digits of `n`.
pub open spec fn decimal_text(n: nat) -> Seq<char>
    decreases n,
{
    if n < 10 {
        seq![digit_char(n)]
    } else {
        decimal_text(n / 10).push(digit_char(n % 10))
    }
}

pub open spec fn digit_char(d: nat) -> char {
    (('0' as nat) + d) as char
}

/// `n` written in decimal.
pub fn number_text(n: usize) -> (r: String)
    ensures
        r@ == decimal_text(n as nat),
{
    let mut rev: Vec<char> = Vec::new();
    let mut m: usize = n;
    while m >= 10
        invariant
            m <= n,
            decimal_text(n as nat) == decimal_text(m as nat) + rev@.reverse(),
        decreases m,
    {
        let ghost before = rev@;
        let d = m % 10;
        rev.push(crate::format::char_at_offset('0', d as u32));
        assert(rev@.reverse() =~= seq![digit_char(d as nat)] + before.reverse());
        assert(decimal_text(m as nat) == decimal_text((m / 10) as nat).push(digit_char(d as nat)));
        assert(decimal_text(m as nat) + before.reverse() =~= decimal_text((m / 10) as nat)
            + rev@.reverse());
        m = m / 10;
    }
    let ghost before = rev@;
    rev.push(crate::format::char_at_offset('0', m as u32));
    assert(rev@.reverse() =~= seq![digit_char(m as nat)] + before.reverse());
    assert(decimal_text(n as nat) =~= rev@.reverse());
    let mut out: Vec<char> = Vec::new();
    let mut k: usize = rev.len();
    while k > 0
        invariant
            k <= rev@.len(),
            out@ == rev@.reverse().subrange(0, rev@.len() - k),
        decreases k,
    {
        k = k - 1;
        out.push(rev[k]);
        assert(out@ =~= rev@.reverse().subrange(0, rev@.len() - k));
    }
    assert(out@ =~= rev@.reverse());
    crate::text::string_of(out.as_slice())
}

} // verus!
