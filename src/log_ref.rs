//! Log lines, the fields a log format finds in them, and the stack traces they carry.
use vstd::prelude::*;
use vstd::string::*;
use crate::language::SourceLanguage;
use crate::log_format::{opt_view, LogFields};
use crate::pattern::{pattern_captures, pattern_compiles, Pattern};
use crate::text::trim_end_seq;

verus! {

/// Finds a stack trace in a log body: a Python traceback, or a JVM exception with its frames,
/// `... N more` lines and `Caused by:` / `Suppressed:` chains.
pub const BACKTRACE_PATTERN: &'static str = r#"(?smx)
    (?<python>
        # the 'Traceback' line
        ^Traceback\s+\(most\s+recent\s+call\s+last\):\s*$\n?

        # the stack frames
        (?:
            # '  File "path", line N, in function'
            ^\s{2}File\s+"[^"]*",\s+line\s+\d+,\s+in\s+\S+\s*$\n?

            # the code line, if any
            (?:^\s{4}.*$\n?)?
        )+

        # the exception line
        ^[a-zA-Z_][a-zA-Z0-9_.]*(?:\.[a-zA-Z_][a-zA-Z0-9_]*)*:.*$
    )
    |
    (?<java>
        # exception headers
        (?:^\S*?(?:Exception|Error)(?::\s*.*?)?$\n?)+

        (?:
            # at package.Class.method(Source.java:123)
            (?:^\s*at\s+
                (?:[a-zA-Z_$][a-zA-Z0-9_$]*\.)*
                [a-zA-Z_$][a-zA-Z0-9_$]*
                (?:\.[a-zA-Z_$][a-zA-Z0-9_$]*)?
                (?:\([^)]*\))?
                (?:\s*~\[[^\]]+\])?
                (?:\s*@[a-fA-F0-9]+)?$\n?
            )
            |
            # ... N more
            (?:^\s*\.{3}\s*\d+\s+
                (?:more|common\s+frames?\s+omitted)$\n?
            )
            |
            (?:^\s*Caused\s+by:\s*
                [a-zA-Z_$][a-zA-Z0-9_$.]*
                (?::\s*.*?)?$\n?
            )
            |
            (?:^\s*Suppressed:\s*
                [a-zA-Z_$][a-zA-Z0-9_$.]*
                (?::\s*.*?)?$\n?
            )
        )*
    )
"#;

/// A stack trace found in a log body, and the language it comes from.
#[derive(Clone, Debug, PartialEq, Eq)]
pub struct StackTrace {
    pub language: SourceLanguage,
    pub content: String,
}

/// The structure that a log format finds in a log line.
#[derive(Clone, Debug, PartialEq, Eq)]
pub struct LogDetails {
    pub thread: Option<String>,
    pub file: Option<String>,
    pub lineno: Option<usize>,
    pub body: Option<String>,
    pub trace: Option<StackTrace>,
}

impl LogDetails {
    pub open spec fn empty_spec(&self) -> bool {
        self.thread is None && self.file is None && self.lineno is None && self.body is None
            && self.trace is None
    }

    /// Whether no field is set.
    pub fn is_empty(&self) -> (r: bool)
        ensures
            r == self.empty_spec(),
    {
        self.thread.is_none() && self.file.is_none() && self.lineno.is_none()
            && self.body.is_none() && self.trace.is_none()
    }
}

/// A log line, with its structure where a log format gave one.
#[derive(Clone, Debug, PartialEq, Eq)]
pub struct LogRef {
    pub line: String,
    pub details: Option<LogDetails>,
}

/// The text that statements are matched against: the body, or else the whole line.
pub open spec fn body_of(r: LogRef) -> Seq<char> {
    match r.details {
        Some(d) => match d.body {
            Some(b) => b@,
            None => r.line@,
        },
        None => r.line@,
    }
}

fn copy_text(o: &Option<String>) -> (r: Option<String>)
    ensures
        r == *o,
{
    match o {
        Some(x) => Some(x.clone()),
        None => None,
    }
}

impl LogRef {
    /// A copy of this log line.
    pub fn copy(&self) -> (r: LogRef)
        ensures
            r == *self,
    {
        let details = match &self.details {
            Some(d) => Some(
                LogDetails {
                    thread: copy_text(&d.thread),
                    file: copy_text(&d.file),
                    lineno: d.lineno,
                    body: copy_text(&d.body),
                    trace: match &d.trace {
                        Some(t) => Some(StackTrace { language: t.language, content: t.content.clone() }),
                        None => None,
                    },
                },
            ),
            None => None,
        };
        LogRef { line: self.line.clone(), details }
    }

    /// The text that statements are matched against.
    pub fn body(&self) -> (r: String)
        ensures
            r@ == body_of(*self),
    {
        match &self.details {
            Some(d) => match &d.body {
                Some(b) => b.clone(),
                None => self.line.clone(),
            },
            None => self.line.clone(),
        }
    }
}

/// Whether the details hold nothing but a body.
pub fn is_only_body(details: &Option<LogDetails>) -> (r: bool)
    ensures
        r == match details {
            Some(d) => d.thread is None && d.file is None && d.lineno is None && d.trace is None,
            None => true,
        },
{
    match details {
        Some(d) => d.thread.is_none() && d.file.is_none() && d.lineno.is_none() && d.trace.is_none(),
        None => true,
    }
}

/// How a body splits into the plain text and a trailing stack trace: the text before the
/// first trace, without trailing white space, and the trace with its language.
pub open spec fn split_trace(b: Seq<char>) -> (Seq<char>, Option<(SourceLanguage, Seq<char>)>) {
    if pattern_compiles(BACKTRACE_PATTERN@) {
        match pattern_captures(BACKTRACE_PATTERN@, b) {
            Some(g) => if g.len() > 0 && g[0] is Some {
                let m = g[0]->0;
                let lang = if g.len() > 1 && g[1] is Some {
                    SourceLanguage::Python
                } else {
                    SourceLanguage::Java
                };
                (trim_end_seq(b.subrange(0, m.0)), Some((lang, b.subrange(m.0, m.1))))
            } else {
                (b, None)
            },
            None => (b, None),
        }
    } else {
        (b, None)
    }
}

pub open spec fn trace_view(t: Option<StackTrace>) -> Option<(SourceLanguage, Seq<char>)> {
    match t {
        Some(s) => Some((s.language, s.content@)),
        None => None,
    }
}

/// What `str::parse::<usize>` makes of `s`: decimal digits after an optional `+`.
pub open spec fn parse_usize(s: Seq<char>) -> Option<nat> {
    let start = if s.len() > 0 && s[0] == '+' { 1int } else { 0int };
    if s.len() > start && (forall|q: int| start <= q < s.len() ==> crate::text::is_ascii_digit(#[trigger] s[q]))
        && crate::format::digits_value(s, start, s.len() as int) <= usize::MAX {
        Some(crate::format::digits_value(s, start, s.len() as int))
    } else {
        None
    }
}

/// The number that `s` writes, as [`parse_usize`] states.
pub fn parse_number(s: &str) -> (r: Option<usize>)
    ensures
        match parse_usize(s@) {
            Some(v) => r == Some(v as usize),
            None => r is None,
        },
{
    let cs = crate::text::chars_of(s);
    let start: usize = if cs.len() > 0 && cs[0] == '+' { 1 } else { 0 };
    if cs.len() <= start {
        return None;
    }
    let mut v: usize = 0;
    let mut q: usize = start;
    while q < cs.len()
        invariant
            start <= q <= cs@.len(),
            cs@ == s@,
            start == (if cs@.len() > 0 && cs@[0] == '+' { 1int } else { 0int }),
            forall|x: int| start <= x < q ==> crate::text::is_ascii_digit(#[trigger] cs@[x]),
            v as nat == crate::format::digits_value(cs@, start as int, q as int),
        decreases cs@.len() - q,
    {
        let c = cs[q];
        if !('0' <= c && c <= '9') {
            return None;
        }
        let d: usize = ((c as u32) - 48) as usize;
        assert(d as nat == crate::format::digit_of(c));
        assert(crate::format::digits_value(cs@, start as int, q + 1) == v * 10 + d);
        if v > (usize::MAX - d) / 10 {
            proof {
                crate::format::lemma_digits_prefix_grows(cs@, start as int, q + 1, cs@.len() as int);
                assert(v * 10 + d > usize::MAX) by (nonlinear_arith)
                    requires
                        v > (usize::MAX - d) / 10,
                        d <= 9,
                ;
            }
            return None;
        }
        assert(v * 10 + d <= usize::MAX) by (nonlinear_arith)
            requires
                v <= (usize::MAX - d) / 10,
                d <= 9,
        ;
        v = v * 10 + d;
        q = q + 1;
    }
    Some(v)
}

/// `d` holds what a log format found: the file and thread as they are, the line number as
/// [`parse_usize`] reads it (0 where it is not a number), and the body split from its trace.
pub open spec fn captured_details(d: LogDetails, fields: LogFields) -> bool {
    &&& opt_view(d.file) == opt_view(fields.file)
    &&& opt_view(d.thread) == opt_view(fields.thread)
    &&& d.lineno == match fields.line {
        Some(l) => Some(
            match parse_usize(l@) {
                Some(n) => n as usize,
                None => 0usize,
            },
        ),
        None => None,
    }
    &&& match fields.body {
        Some(b) => d.body matches Some(db) && db@ == split_trace(b@).0 && trace_view(d.trace) == split_trace(b@).1,
        None => d.body is None && d.trace is None,
    }
}

/// Builds a [`LogRef`] field by field.
pub struct LogRefBuilder {
    pub details: LogDetails,
}

impl LogRefBuilder {
    /// A builder with no field set.
    pub fn new() -> (r: LogRefBuilder)
        ensures
            r.details.empty_spec(),
    {
        LogRefBuilder {
            details: LogDetails { thread: None, file: None, lineno: None, body: None, trace: None },
        }
    }

    pub fn with_thread(self, thread: Option<&str>) -> (r: LogRefBuilder)
        ensures
            r.details == (LogDetails { thread: r.details.thread, ..self.details }),
            opt_view(r.details.thread) == match thread { Some(t) => Some(t@), None => None },
    {
        let mut s = self;
        s.details.thread = match thread {
            Some(t) => Some(String::from_str(t)),
            None => None,
        };
        s
    }

    pub fn with_file(self, file: Option<&str>) -> (r: LogRefBuilder)
        ensures
            r.details == (LogDetails { file: r.details.file, ..self.details }),
            opt_view(r.details.file) == match file { Some(t) => Some(t@), None => None },
    {
        let mut s = self;
        s.details.file = match file {
            Some(t) => Some(String::from_str(t)),
            None => None,
        };
        s
    }

    pub fn with_lineno(self, lineno: Option<usize>) -> (r: LogRefBuilder)
        ensures
            r.details == (LogDetails { lineno, ..self.details }),
    {
        let mut s = self;
        s.details.lineno = lineno;
        s
    }

    /// Sets the body; a stack trace at its end is split off into the trace field.
    pub fn with_body(self, body: Option<&str>) -> (r: LogRefBuilder)
        ensures
            r.details == (LogDetails { body: r.details.body, trace: r.details.trace, ..self.details }),
            body is None ==> r.details.body is None && r.details.trace is None,
            body matches Some(b) ==> r.details.body matches Some(rb) && rb@ == split_trace(b@).0
                && trace_view(r.details.trace) == split_trace(b@).1,
    {
        let mut s = self;
        match body {
            None => {
                s.details.body = None;
                s.details.trace = None;
            },
            Some(b) => {
                let (plain, trace) = split_body(b);
                s.details.body = Some(plain);
                s.details.trace = trace;
            },
        }
        s
    }

    /// The log line `line` with the fields set so far; no details when none is set.
    pub fn build(self, line: &str) -> (r: LogRef)
        ensures
            r.line@ == line@,
            self.details.empty_spec() ==> r.details is None,
            !self.details.empty_spec() ==> r.details == Some(self.details),
    {
        let details = if self.details.is_empty() {
            None
        } else {
            Some(self.details)
        };
        LogRef { line: String::from_str(line), details }
    }

    /// The log line `content` with the fields that a log format found in it: the file, the
    /// line number (0 where it is not a number), the thread and the body.
    pub fn build_from_captures(self, fields: &LogFields, content: &str) -> (r: LogRef)
        ensures
            r.line@ == content@,
            (fields.file is None && fields.line is None && fields.thread is None && fields.body is None)
                ==> r.details is None,
            (fields.file is Some || fields.line is Some || fields.thread is Some || fields.body is Some)
                ==> (r.details matches Some(d) && captured_details(d, *fields)),
    {
        let lineno = match &fields.line {
            Some(l) => match parse_number(l.as_str()) {
                Some(n) => Some(n),
                None => Some(0),
            },
            None => None,
        };
        let file = match &fields.file {
            Some(f) => Some(f.as_str()),
            None => None,
        };
        let thread = match &fields.thread {
            Some(t) => Some(t.as_str()),
            None => None,
        };
        let body = match &fields.body {
            Some(b) => Some(b.as_str()),
            None => None,
        };
        self.with_file(file).with_lineno(lineno).with_thread(thread).with_body(body).build(content)
    }
}

/// Splits a body into its plain text and the stack trace at its end, if any.
pub fn split_body(b: &str) -> (r: (String, Option<StackTrace>))
    ensures
        r.0@ == split_trace(b@).0,
        trace_view(r.1) == split_trace(b@).1,
{
    let re = match Pattern::new(BACKTRACE_PATTERN) {
        Ok(p) => p,
        Err(_) => {
            return (String::from_str(b), None);
        },
    };
    match re.captures(b) {
        None => (String::from_str(b), None),
        Some(g) => {
            match g[0] {
                Some((s, e)) => {
                    let cs = crate::text::chars_of(b);
                    let language = if g.len() > 1 && g[1].is_some() {
                        SourceLanguage::Python
                    } else {
                        SourceLanguage::Java
                    };
                    assert(crate::pattern::span_views(g@)[0] == Some((s as int, e as int)));
                    let plain = crate::text::trimmed_prefix(&cs, s);
                    let mut content: Vec<char> = Vec::new();
                    let mut q: usize = s;
                    while q < e
                        invariant
                            s <= q <= e <= cs@.len(),
                            content@ == cs@.subrange(s as int, q as int),
                        decreases e - q,
                    {
                        content.push(cs[q]);
                        q = q + 1;
                        assert(content@ =~= cs@.subrange(s as int, q as int));
                    }
                    assert(g@.len() > 1 ==> (g@[1] is Some <==> crate::pattern::span_views(g@)[1] is Some));
                    (
                        crate::text::string_of(plain.as_slice()),
                        Some(
                            StackTrace {
                                language,
                                content: crate::text::string_of(content.as_slice()),
                            },
                        ),
                    )
                },
                None => (String::from_str(b), None),
            }
        },
    }
}

} // verus!
