//! Groups the lines of a log into messages: a line that has the log format's shape starts a
//! message, and the lines after it that do not are its continuation.
use vstd::prelude::*;
use vstd::string::*;
use crate::error::LogError;
use crate::log_format::LogFormat;
use crate::log_matcher::{LogMapping, LogMatcher};
use crate::log_ref::{LogRef, LogRefBuilder};
use crate::pattern::pattern_captures;

verus! {

/// Collects the lines of the message being read and maps each complete message.
pub struct MessageAccumulator {
    pub log_matcher: LogMatcher,
    pub log_format: Option<LogFormat>,
    pub content: String,
    pub message_count: usize,
    pub limit: usize,
}

/// What the accumulator holds after `line` with `format`, given that it held `content`: a line
/// of the format's shape starts a new message, another line continues the current one (and is
/// dropped when there is none).
pub open spec fn next_content(format: LogFormat, content: Seq<char>, line: Seq<char>) -> Seq<char> {
    if pattern_captures(format.regex@, line) is Some {
        line
    } else if content.len() > 0 {
        content + seq!['\n'] + line
    } else {
        content
    }
}

impl MessageAccumulator {
    pub open spec fn wf(&self) -> bool {
        &&& self.log_matcher.wf()
        &&& (self.log_format matches Some(f) ==> f.wf())
    }

    /// An accumulator that maps messages with `log_matcher` and stops after `limit` messages.
    pub fn new(log_matcher: LogMatcher, log_format: Option<LogFormat>, limit: usize) -> (r: MessageAccumulator)
        ensures
            r.log_matcher == log_matcher,
            r.log_format == log_format,
            r.content@.len() == 0,
            r.message_count == 0,
            r.limit == limit,
    {
        MessageAccumulator { log_matcher, log_format, content: String::new(), message_count: 0, limit }
    }

    /// The mapping of `log_ref`: the matched statement, or none.
    pub fn get_log_mapping(&self, log_ref: LogRef) -> (r: LogMapping)
        requires
            self.log_matcher.wf(),
        ensures
            r.log_ref == log_ref,
            r.src_ref is None <==> forall|i: int, f: int, k: int| !#[trigger] self.log_matcher.considered(log_ref, i, f, k),
            r.src_ref is Some ==> exists|i: int, f: int, k: int| #[trigger] self.log_matcher.chosen(&log_ref, r, i, f, k),
            r.src_ref is None ==> r.variables@.len() == 0 && r.exception_trace@.len() == 0,
    {
        match self.log_matcher.match_log_statement(&log_ref) {
            Some(m) => m,
            None => LogMapping { log_ref, src_ref: None, exception_trace: Vec::new(), variables: Vec::new() },
        }
    }

    /// Maps the message collected so far, when it has the format's shape, and starts afresh.
    pub fn process_msg(&mut self) -> (r: Option<LogMapping>)
        requires
            old(self).wf(),
        ensures
            final(self).wf(),
            final(self).content@.len() == 0,
            final(self).log_matcher == old(self).log_matcher,
            final(self).log_format == old(self).log_format,
            final(self).limit == old(self).limit,
            r is Some <==> (old(self).log_format matches Some(f) && pattern_captures(f.regex@, old(self).content@) is Some),
            r is Some ==> final(self).message_count == if old(self).message_count < usize::MAX {
                old(self).message_count + 1
            } else {
                old(self).message_count as int
            },
            r is None ==> final(self).message_count == old(self).message_count,
    {
        let fields = match &self.log_format {
            Some(f) => f.captures(self.content.as_str()),
            None => None,
        };
        let r = match fields {
            Some(fields) => {
                if self.message_count < usize::MAX {
                    self.message_count = self.message_count + 1;
                }
                let log_ref = LogRefBuilder::new().build_from_captures(&fields, self.content.as_str());
                Some(self.get_log_mapping(log_ref))
            },
            None => None,
        };
        self.content = String::new();
        r
    }

    /// Takes one line of the log. With a format, a line of its shape ends the message before it,
    /// whose mapping is returned, and starts a new one; another line continues the current
    /// message. Without a format, each line is a message of its own and its mapping is returned.
    pub fn consume_line(&mut self, line: &str) -> (r: Option<LogMapping>)
        requires
            old(self).wf(),
        ensures
            final(self).wf(),
            final(self).log_matcher == old(self).log_matcher,
            final(self).log_format == old(self).log_format,
            final(self).limit == old(self).limit,
            old(self).log_format is None ==> r is Some && final(self).content == old(self).content
                && final(self).message_count == old(self).message_count,
            old(self).log_format matches Some(f) ==> final(self).content@ == next_content(
                f,
                old(self).content@,
                line@,
            ),
            old(self).log_format matches Some(f) && (pattern_captures(f.regex@, line@) is None
                || old(self).content@.len() == 0) ==> r is None && final(self).message_count
                == old(self).message_count,
    {
        let starts = match &self.log_format {
            Some(f) => Some(f.is_match(line)),
            None => None,
        };
        match starts {
            None => {
                let log_ref = LogRefBuilder::new().with_body(Some(line)).build(line);
                Some(self.get_log_mapping(log_ref))
            },
            Some(true) => {
                let r = if self.content.as_str().unicode_len() > 0 {
                    self.process_msg()
                } else {
                    None
                };
                self.content = String::from_str(line);
                r
            },
            Some(false) => {
                if self.content.as_str().unicode_len() > 0 {
                    self.content.append("\n");
                    proof {
                        reveal_strlit("\n");
                    }
                    self.content.append(line);
                }
                None
            },
        }
    }

    /// Whether `limit` messages were mapped.
    pub fn at_limit(&self) -> (r: bool)
        ensures
            r == (self.message_count >= self.limit),
    {
        self.message_count >= self.limit
    }

    /// Maps the message still being collected, unless the limit is reached.
    pub fn flush(&mut self) -> (r: Option<LogMapping>)
        requires
            old(self).wf(),
        ensures
            final(self).wf(),
            final(self).log_format == old(self).log_format,
            (old(self).content@.len() == 0 || old(self).message_count >= old(self).limit) ==> r is None
                && *final(self) == *old(self),
    {
        if self.content.as_str().unicode_len() > 0 && !self.at_limit() {
            self.process_msg()
        } else {
            None
        }
    }

    /// Ends the log: an error when a format was given and no line had its shape.
    pub fn eof(&self) -> (r: Result<(), LogError>)
        ensures
            r is Err <==> (self.log_format is Some && self.message_count == 0),
            r matches Err(e) ==> e == LogError::NoLogMessages,
    {
        if self.log_format.is_some() && self.message_count == 0 {
            Err(LogError::NoLogMessages)
        } else {
            Ok(())
        }
    }
}

} // verus!
