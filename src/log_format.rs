//! A user's description of the shape of log lines, as a regular expression with named groups.
use vstd::prelude::*;
use vstd::string::*;
use crate::error::LogError;
use crate::pattern::{name_views, pattern_captures, pattern_compiles, pattern_group_names, Pattern};
use crate::text::str_equals;

verus! {

/// The group names that a log format may use.
pub open spec fn recognized_name(n: Seq<char>) -> bool {
    n == "timestamp"@ || n == "thread"@ || n == "method"@ || n == "file"@ || n == "line"@ || n
        == "body"@ || n == "level"@
}

/// The first group name at or after `k` that is not recognized.
pub open spec fn first_unknown(names: Seq<Option<Seq<char>>>, k: int) -> Option<Seq<char>>
    decreases names.len() - k,
{
    if 0 <= k < names.len() {
        match names[k] {
            Some(n) => if recognized_name(n) {
                first_unknown(names, k + 1)
            } else {
                Some(n)
            },
            None => first_unknown(names, k + 1),
        }
    } else {
        None
    }
}

pub open spec fn has_group(names: Seq<Option<Seq<char>>>, n: Seq<char>) -> bool {
    exists|k: int| 0 <= k < names.len() && names[k] == Some(n)
}

/// The pattern that a format text compiles to: `.` matches newlines too.
pub open spec fn format_pattern(text: Seq<char>) -> Seq<char> {
    seq!['(', '?', 's', ')'] + text
}

/// The text of the first group named `n` that took part in a match, if any.
pub open spec fn group_text(
    names: Seq<Option<Seq<char>>>,
    spans: Seq<Option<(int, int)>>,
    line: Seq<char>,
    n: Seq<char>,
    k: int,
) -> Option<Seq<char>>
    decreases names.len() - k,
{
    if 0 <= k < names.len() {
        if names[k] == Some(n) && k < spans.len() && spans[k] is Some {
            let r = spans[k]->0;
            Some(line.subrange(r.0, r.1))
        } else {
            group_text(names, spans, line, n, k + 1)
        }
    } else {
        None
    }
}

/// A compiled log format.
pub struct LogFormat {
    pub regex: Pattern,
    pub names: Vec<Option<String>>,
}

impl LogFormat {
    pub open spec fn wf(&self) -> bool {
        name_views(self.names@) == pattern_group_names(self.regex@)
    }

    pub open spec fn field(&self, line: Seq<char>, n: Seq<char>) -> Option<Seq<char>> {
        match pattern_captures(self.regex@, line) {
            Some(spans) => group_text(name_views(self.names@), spans, line, n, 0),
            None => None,
        }
    }

    /// Compiles `value` into a log format. It is refused when it is not a valid regular
    /// expression, when it has a group whose name is not one of `timestamp`, `thread`, `level`,
    /// `file`, `line`, `method` and `body`, or when it has no `body` group.
    pub fn try_from(value: &str) -> (r: Result<LogFormat, LogError>)
        ensures
            !pattern_compiles(format_pattern(value@)) ==> r matches Err(
                LogError::InvalidFormatRegex { .. },
            ),
            pattern_compiles(format_pattern(value@)) ==> {
                let names = pattern_group_names(format_pattern(value@));
                match first_unknown(names, 0) {
                    Some(n) => r matches Err(LogError::UnknownFormatCapture { name }) && name@ == n,
                    None => if has_group(names, "body"@) {
                        r matches Ok(f) && f.regex@ == format_pattern(value@) && f.wf()
                    } else {
                        r matches Err(LogError::FormatMissingCapture { name }) && name@ == "body"@
                    },
                }
            },
    {
        let mut text = String::from_str("(?s)");
        proof {
            reveal_strlit("(?s)");
        }
        text.append(value);
        assert(text@ =~= format_pattern(value@));
        let regex = match Pattern::new(text.as_str()) {
            Ok(p) => p,
            Err(e) => {
                return Err(LogError::InvalidFormatRegex { message: crate::pattern::error_text(&e) });
            },
        };
        let names = regex.group_names();
        let ghost nv = name_views(names@);
        let mut k: usize = 0;
        let mut has_body = false;
        while k < names.len()
            invariant
                k <= names@.len(),
                nv == name_views(names@),
                regex@ == format_pattern(value@),
                pattern_compiles(format_pattern(value@)),
                nv == pattern_group_names(format_pattern(value@)),
                first_unknown(nv, 0) == first_unknown(nv, k as int),
                has_body == exists|q: int| 0 <= q < k && nv[q] == Some("body"@),
            decreases names@.len() - k,
        {
            match &names[k] {
                Some(n) => {
                    assert(nv[k as int] == Some(n@));
                    let s = n.as_str();
                    if !(str_equals(s, "timestamp") || str_equals(s, "thread") || str_equals(
                        s,
                        "method",
                    ) || str_equals(s, "file") || str_equals(s, "line") || str_equals(s, "body")
                        || str_equals(s, "level")) {
                        return Err(LogError::UnknownFormatCapture { name: n.clone() });
                    }
                    if str_equals(s, "body") {
                        has_body = true;
                    }
                },
                None => {
                    assert(nv[k as int] == None::<Seq<char>>);
                },
            }
            k = k + 1;
        }
        if !has_body {
            proof {
                reveal_strlit("body");
            }
            return Err(LogError::FormatMissingCapture { name: String::from_str("body") });
        }
        Ok(LogFormat { regex, names })
    }

    /// Whether the format names both the file and the line of the statement.
    pub fn has_src_hint(&self) -> (r: bool)
        ensures
            r == (has_group(name_views(self.names@), "file"@) && has_group(
                name_views(self.names@),
                "line"@,
            )),
    {
        let mut file = false;
        let mut line = false;
        let ghost nv = name_views(self.names@);
        let mut k: usize = 0;
        while k < self.names.len()
            invariant
                k <= self.names@.len(),
                nv == name_views(self.names@),
                file == exists|q: int| 0 <= q < k && nv[q] == Some("file"@),
                line == exists|q: int| 0 <= q < k && nv[q] == Some("line"@),
            decreases self.names@.len() - k,
        {
            match &self.names[k] {
                Some(n) => {
                    assert(nv[k as int] == Some(n@));
                    if str_equals(n.as_str(), "file") {
                        file = true;
                    }
                    if str_equals(n.as_str(), "line") {
                        line = true;
                    }
                },
                None => {
                    assert(nv[k as int] == None::<Seq<char>>);
                },
            }
            k = k + 1;
        }
        file && line
    }

    /// Whether `line` has the shape of a log line.
    pub fn is_match(&self, line: &str) -> (r: bool)
        ensures
            r == pattern_captures(self.regex@, line@) is Some,
    {
        self.regex.captures(line).is_some()
    }

    /// The fields of `line`: none when it does not have the format's shape.
    pub fn captures(&self, line: &str) -> (r: Option<LogFields>)
        requires
            self.wf(),
        ensures
            r is None <==> pattern_captures(self.regex@, line@) is None,
            r matches Some(f) ==> {
                &&& opt_view(f.file) == self.field(line@, "file"@)
                &&& opt_view(f.line) == self.field(line@, "line"@)
                &&& opt_view(f.thread) == self.field(line@, "thread"@)
                &&& opt_view(f.body) == self.field(line@, "body"@)
            },
    {
        match self.regex.captures(line) {
            None => None,
            Some(spans) => {
                let cs = crate::text::chars_of(line);
                Some(
                    LogFields {
                        file: self.named(&spans, &cs, "file"),
                        line: self.named(&spans, &cs, "line"),
                        thread: self.named(&spans, &cs, "thread"),
                        body: self.named(&spans, &cs, "body"),
                    },
                )
            },
        }
    }

    fn named(&self, spans: &Vec<Option<(usize, usize)>>, cs: &Vec<char>, n: &str) -> (r: Option<String>)
        requires
            crate::pattern::spans_within(crate::pattern::span_views(spans@), cs@.len() as int),
        ensures
            opt_view(r) == group_text(
                name_views(self.names@),
                crate::pattern::span_views(spans@),
                cs@,
                n@,
                0,
            ),
    {
        let ghost nv = name_views(self.names@);
        let ghost sv = crate::pattern::span_views(spans@);
        let mut k: usize = 0;
        while k < self.names.len()
            invariant
                k <= self.names@.len(),
                nv == name_views(self.names@),
                sv == crate::pattern::span_views(spans@),
                crate::pattern::spans_within(sv, cs@.len() as int),
                group_text(nv, sv, cs@, n@, 0) == group_text(nv, sv, cs@, n@, k as int),
            decreases self.names@.len() - k,
        {
            let is_name = match &self.names[k] {
                Some(x) => str_equals(x.as_str(), n),
                None => false,
            };
            if is_name && k < spans.len() {
                match spans[k] {
                    Some((a, b)) => {
                        assert(sv[k as int] == Some((a as int, b as int)));
                        let mut out: Vec<char> = Vec::new();
                        let mut q: usize = a;
                        while q < b
                            invariant
                                a <= q <= b <= cs@.len(),
                                out@ == cs@.subrange(a as int, q as int),
                            decreases b - q,
                        {
                            out.push(cs[q]);
                            q = q + 1;
                            assert(out@ =~= cs@.subrange(a as int, q as int));
                        }
                        return Some(crate::text::string_of(out.as_slice()));
                    },
                    None => {},
                }
            }
            k = k + 1;
        }
        None
    }

    /// The files named by the lines `lines[..k]`, in order.
    pub open spec fn files_named(&self, lines: Seq<String>, k: int) -> Seq<Seq<char>>
        decreases k,
    {
        if k <= 0 {
            seq![]
        } else {
            let before = self.files_named(lines, k - 1);
            match self.field(lines[k - 1]@, "file"@) {
                Some(f) => before.push(f),
                None => before,
            }
        }
    }

    /// The file named by each line that has one, or none when no line does.
    pub fn build_src_filter(&self, lines: &Vec<String>) -> (r: Option<Vec<String>>)
        requires
            self.wf(),
        ensures
            r is None <==> self.files_named(lines@, lines@.len() as int).len() == 0,
            r matches Some(v) ==> crate::pattern::string_views(v@) == self.files_named(
                lines@,
                lines@.len() as int,
            ),
    {
        let mut results: Vec<String> = Vec::new();
        let mut k: usize = 0;
        while k < lines.len()
            invariant
                k <= lines@.len(),
                self.wf(),
                crate::pattern::string_views(results@) == self.files_named(lines@, k as int),
            decreases lines@.len() - k,
        {
            let ghost before = results@;
            match self.captures(lines[k].as_str()) {
                Some(fields) => {
                    match fields.file {
                        Some(f) => {
                            results.push(f);
                            assert(crate::pattern::string_views(results@) =~= crate::pattern::string_views(
                                before,
                            ).push(results@.last()@));
                        },
                        None => {},
                    }
                },
                None => {},
            }
            k = k + 1;
        }
        if results.len() > 0 {
            Some(results)
        } else {
            None
        }
    }
}

pub open spec fn opt_view(o: Option<String>) -> Option<Seq<char>> {
    match o {
        Some(s) => Some(s@),
        None => None,
    }
}

/// The recognized fields of one log line.
#[derive(Clone, Debug, PartialEq, Eq)]
pub struct LogFields {
    pub file: Option<String>,
    pub line: Option<String>,
    pub thread: Option<String>,
    pub body: Option<String>,
}

} // verus!
