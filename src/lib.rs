//! Correlates log lines with the logging statements in source code that produced them, and
//! recovers the values that each statement's placeholders had.
use vstd::prelude::*;

pub mod accumulator;
pub mod code_source;
pub mod error;
pub mod format;
pub mod language;
pub mod log_format;
pub mod log_matcher;
pub mod log_ref;
pub mod pattern;
pub mod progress;
pub mod source_hier;
pub mod source_ref;
pub mod text;

pub use accumulator::MessageAccumulator;
pub use code_source::{extract_logging, extract_logging_guarded, extract_statements, CodeSource, QueryResult, StatementsInFile};
pub use error::LogError;
pub use format::{build_matcher, FormatArgument, MessageMatcher};
pub use language::SourceLanguage;
pub use log_format::{LogFields, LogFormat};
pub use log_matcher::{link_to_source, lookup_source, LogMapping, LogMatcher, ParsedSource, SourceTree};
pub use log_ref::{LogDetails, LogRef, LogRefBuilder, StackTrace};
pub use progress::{ProgressListener, ProgressTracker, ProgressUpdate, WorkGuard, WorkInfo};
pub use source_hier::{FsEntry, ScanEvent, SourceFileID, SourceFileInfo, SourceHierTree};
pub use source_ref::{extract_variables_from, CallSite, SourceRef, VariablePair};

verus! {

/// The values that `log_ref`'s body gives to the placeholders of `src_ref`, each labeled by
/// its argument.
pub fn extract_variables(log_ref: &LogRef, src_ref: &SourceRef) -> (r: Vec<VariablePair>)
    ensures
        source_ref::pair_views(r@) == source_ref::variables_of(log_ref::body_of(*log_ref), *src_ref),
{
    let body = log_ref.body();
    extract_variables_from(body.as_str(), src_ref)
}

} // verus!
