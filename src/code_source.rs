//! Source files and the logging statements extracted from them.
use vstd::prelude::*;
use vstd::string::*;
use crate::error::LogError;
use crate::format::{arg_views, build_matcher, matcher_pattern, matcher_quality, FormatArgument};
use crate::language::{language_of_path, SourceLanguage};
use crate::pattern::{pattern_compiles, string_views, Pattern, PatternSet};
use crate::source_hier::{SourceFileID, SourceFileInfo};
use crate::source_ref::SourceRef;
use crate::text::{is_space, str_equals};

verus! {

/// The text of a source file.
pub struct CodeSource {
    pub filename: String,
    pub info: SourceFileInfo,
    pub buffer: String,
}

impl CodeSource {
    /// The source file at `path`, of the kind that `info` gives, with the text `buffer`.
    pub fn new(path: &str, info: SourceFileInfo, buffer: String) -> (r: CodeSource)
        ensures
            r.filename@ == path@,
            r.info == info,
            r.buffer == buffer,
    {
        CodeSource { filename: String::from_str(path), info, buffer }
    }

    /// An in-memory source file named `path`, which takes the next identifier of `next_id`;
    /// none when the name's extension is not that of a supported language.
    pub fn from_string(path: &str, input: &str, next_id: &mut usize) -> (r: Option<CodeSource>)
        ensures
            r is Some <==> (language_of_path(path@) is Some && *old(next_id) < usize::MAX),
            r matches Some(c) ==> c.filename@ == path@ && c.buffer@ == input@ && c.info.language
                == language_of_path(path@)->0 && c.info.id == SourceFileID(*old(next_id)),
    {
        match SourceLanguage::from_path(path) {
            Some(language) => {
                if *next_id == usize::MAX {
                    return None;
                }
                let info = SourceFileInfo::new(language, next_id);
                Some(
                    CodeSource {
                        filename: String::from_str(path),
                        info,
                        buffer: String::from_str(input),
                    },
                )
            },
            None => None,
        }
    }
}

/// One capture of a structural query on a source file: the node's kind and text, where it
/// stands, the name of the function around it, and, for string nodes that the parser splits
/// up, the format text and arguments read from their parts.
#[derive(Clone, Debug)]
pub struct QueryResult {
    pub kind: String,
    pub text: String,
    pub start_row: usize,
    pub start_column: usize,
    pub end_row: usize,
    pub name: String,
    pub pattern: Option<String>,
    pub args: Vec<FormatArgument>,
    pub raw: bool,
}

/// The format text of a string capture: the text read from its parts, or else its source text
/// without the first and last characters, the quotes.
pub open spec fn unquoted_text(r: QueryResult) -> Seq<char> {
    match r.pattern {
        Some(p) => p@,
        None => if r.text@.len() >= 2 {
            r.text@.subrange(1, r.text@.len() - 1)
        } else {
            seq![]
        },
    }
}

/// Whether a string capture yields a statement: its text has literal characters and its
/// matcher compiles.
pub open spec fn yields_statement(r: QueryResult, lang: SourceLanguage) -> bool {
    matcher_quality(r.raw, lang, unquoted_text(r)) > 0 && pattern_compiles(
        matcher_pattern(r.raw, lang, unquoted_text(r)),
    )
}

fn next_line(row: usize) -> (r: usize)
    ensures
        r == if row < usize::MAX { row + 1 } else { row as int },
{
    if row < usize::MAX {
        row + 1
    } else {
        row
    }
}

proof fn lemma_arg_views_push(s: Seq<FormatArgument>, x: FormatArgument)
    ensures
        arg_views(s.push(x)) == arg_views(s).push(x@),
{
    assert(arg_views(s.push(x)) =~= arg_views(s).push(x@));
}

fn copy_args(v: &Vec<FormatArgument>) -> (r: Vec<FormatArgument>)
    ensures
        arg_views(r@) == arg_views(v@),
{
    let mut out: Vec<FormatArgument> = Vec::new();
    let mut k: usize = 0;
    while k < v.len()
        invariant
            k <= v@.len(),
            arg_views(out@) == arg_views(v@.subrange(0, k as int)),
        decreases v@.len() - k,
    {
        let a = match &v[k] {
            FormatArgument::Named(n) => {
                let c = n.clone();
                assert(c@ == n@);
                FormatArgument::Named(c)
            },
            FormatArgument::Positional(p) => FormatArgument::Positional(*p),
            FormatArgument::Placeholder => FormatArgument::Placeholder,
        };
        assert(a@ == v@[k as int]@);
        let ghost before = out@;
        out.push(a);
        assert(out@ == before.push(a));
        proof {
            lemma_arg_views_push(before, a);
            assert(v@.subrange(0, k + 1) =~= v@.subrange(0, k as int).push(v@[k as int]));
            lemma_arg_views_push(v@.subrange(0, k as int), v@[k as int]);
        }
        k = k + 1;
        assert(arg_views(out@) =~= arg_views(v@.subrange(0, k as int)));
    }
    assert(v@.subrange(0, k as int) =~= v@);
    out
}

fn copy_strings(v: &Vec<String>) -> (r: Vec<String>)
    ensures
        r@ == v@,
{
    let mut out: Vec<String> = Vec::new();
    let mut k: usize = 0;
    while k < v.len()
        invariant
            k <= v@.len(),
            out@ == v@.subrange(0, k as int),
        decreases v@.len() - k,
    {
        out.push(v[k].clone());
        k = k + 1;
        assert(out@ =~= v@.subrange(0, k as int));
    }
    assert(v@.subrange(0, k as int) =~= v@);
    out
}

impl SourceRef {
    /// The statement for the string capture `result` of `code`: none when the format text
    /// holds no literal character or its matcher does not compile. Arguments read from the
    /// string's parts take the place of those of its placeholders.
    pub fn new(code: &CodeSource, result: &QueryResult) -> (r: Option<SourceRef>)
        ensures
            r is Some <==> yields_statement(*result, code.info.language),
            r matches Some(s) ==> {
                &&& s.wf()
                &&& s.pattern@ == matcher_pattern(result.raw, code.info.language, unquoted_text(*result))
                &&& s.quality as nat == matcher_quality(result.raw, code.info.language, unquoted_text(*result))
                &&& s.source_path@ == code.filename@
                &&& s.language == code.info.language
                &&& s.text@ == result.text@
                &&& s.name@ == result.name@
                &&& s.column == result.start_column
                &&& s.line_no == if result.start_row < usize::MAX { result.start_row + 1 } else { result.start_row as int }
                &&& s.end_line_no == if result.end_row < usize::MAX { result.end_row + 1 } else { result.end_row as int }
                &&& s.vars@.len() == 0
                &&& (result.args@.len() > 0 ==> arg_views(s.args@) == arg_views(result.args@))
                &&& (result.args@.len() == 0 ==> arg_views(s.args@) == crate::format::format_args(
                    code.info.language,
                    unquoted_text(*result),
                ))
            },
    {
        let unquoted: String = match &result.pattern {
            Some(p) => p.clone(),
            None => {
                let cs = crate::text::chars_of(result.text.as_str());
                let n = cs.len();
                let mut out: Vec<char> = Vec::new();
                if n >= 2 {
                    let mut q: usize = 1;
                    while q < n - 1
                        invariant
                            1 <= q <= n - 1,
                            n == cs@.len(),
                            out@ == cs@.subrange(1, q as int),
                        decreases n - 1 - q,
                    {
                        out.push(cs[q]);
                        q = q + 1;
                        assert(out@ =~= cs@.subrange(1, q as int));
                    }
                } else {
                    assert(out@ =~= seq![]);
                }
                crate::text::string_of(out.as_slice())
            },
        };
        assert(unquoted@ == unquoted_text(*result));
        match build_matcher(result.raw, unquoted.as_str(), code.info.language) {
            Some(m) => {
                let args = if result.args.len() > 0 {
                    copy_args(&result.args)
                } else {
                    m.args
                };
                Some(
                    SourceRef {
                        source_path: code.filename.clone(),
                        language: code.info.language,
                        line_no: next_line(result.start_row),
                        end_line_no: next_line(result.end_row),
                        column: result.start_column,
                        name: result.name.clone(),
                        text: result.text.clone(),
                        quality: m.quality,
                        matcher: m.matcher,
                        pattern: m.pattern,
                        args,
                        vars: Vec::new(),
                    },
                )
            },
            None => None,
        }
    }

    /// A copy of this statement.
    pub fn copy(&self) -> (r: SourceRef)
        ensures
            r.source_path == self.source_path,
            r.language == self.language,
            r.line_no == self.line_no,
            r.end_line_no == self.end_line_no,
            r.column == self.column,
            r.name == self.name,
            r.text == self.text,
            r.quality == self.quality,
            r.matcher@ == self.matcher@,
            r.pattern == self.pattern,
            arg_views(r.args@) == arg_views(self.args@),
            r.vars@ == self.vars@,
    {
        SourceRef {
            source_path: self.source_path.clone(),
            language: self.language,
            line_no: self.line_no,
            end_line_no: self.end_line_no,
            column: self.column,
            name: self.name.clone(),
            text: self.text.clone(),
            quality: self.quality,
            matcher: self.matcher.duplicate(),
            pattern: self.pattern.clone(),
            args: copy_args(&self.args),
            vars: copy_strings(&self.vars),
        }
    }
}

/// `s` without leading white space.
pub open spec fn trim_start_seq(s: Seq<char>) -> Seq<char>
    decreases s.len(),
{
    if s.len() > 0 && is_space(s[0]) {
        trim_start_seq(s.subrange(1, s.len() as int))
    } else {
        s
    }
}

/// `s` without white space at either end (`str::trim`).
pub open spec fn trim_seq(s: Seq<char>) -> Seq<char> {
    trim_start_seq(crate::text::trim_end_seq(s))
}

/// `text` without white space at either end.
pub fn trim_text(text: &str) -> (r: String)
    ensures
        r@ == trim_seq(text@),
{
    let cs = crate::text::chars_of(text);
    let end = cs.len();
    let t = crate::text::trimmed_prefix(&cs, end);
    assert(cs@.subrange(0, end as int) =~= cs@);
    let mut start: usize = 0;
    assert(t@.subrange(0, t@.len() as int) =~= t@);
    while start < t.len() && crate::text::is_space_char(t[start])
        invariant
            start <= t@.len(),
            t@ == crate::text::trim_end_seq(text@),
            trim_start_seq(t@) == trim_start_seq(t@.subrange(start as int, t@.len() as int)),
        decreases t@.len() - start,
    {
        let ghost u = t@.subrange(start as int, t@.len() as int);
        assert(u.subrange(1, u.len() as int) =~= t@.subrange(start + 1, t@.len() as int));
        start = start + 1;
    }
    let mut out: Vec<char> = Vec::new();
    let mut q: usize = start;
    while q < t.len()
        invariant
            start <= q <= t@.len(),
            out@ == t@.subrange(start as int, q as int),
        decreases t@.len() - q,
    {
        out.push(t[q]);
        q = q + 1;
        assert(out@ =~= t@.subrange(start as int, q as int));
    }
    crate::text::string_of(out.as_slice())
}

/// The recognized logging statements of one file, and one matcher over all their patterns.
pub struct StatementsInFile {
    pub path: String,
    pub id: SourceFileID,
    pub log_statements: Vec<SourceRef>,
    pub matcher: PatternSet,
}

pub open spec fn statement_patterns(v: Seq<SourceRef>) -> Seq<Seq<char>> {
    v.map_values(|s: SourceRef| s.pattern@)
}

impl StatementsInFile {
    /// Each statement is well formed and belongs to this file's path, and the combined matcher
    /// holds their patterns in order.
    pub open spec fn wf(&self) -> bool {
        &&& self.matcher@ == statement_patterns(self.log_statements@)
        &&& forall|k: int| 0 <= k < self.log_statements@.len() ==> (#[trigger] self.log_statements@[k]).wf()
        &&& forall|k: int| 0 <= k < self.log_statements@.len() ==> (#[trigger] self.log_statements@[k]).source_path@ == self.path@
    }
}

/// What a statement contributes to the extraction's result: its pattern and its arguments.
pub open spec fn statement_views(v: Seq<SourceRef>) -> Seq<(Seq<char>, Seq<Seq<char>>)> {
    v.map_values(|s: SourceRef| (s.pattern@, crate::source_ref::var_views(s.vars@)))
}

pub open spec fn is_string_kind(k: Seq<char>) -> bool {
    k == "string_literal"@ || k == "string"@
}

pub open spec fn is_argument_kind(k: Seq<char>) -> bool {
    k == "args"@ || k == "this"@
}

/// The statements that the captures `results[..k]` of a file in `lang` yield, as patterns and
/// arguments: a string capture that yields a statement starts one; an argument capture adds its
/// trimmed text to the last statement, unless that text names the logger or a level.
pub open spec fn statements_from(
    lang: SourceLanguage,
    results: Seq<QueryResult>,
    k: int,
) -> Seq<(Seq<char>, Seq<Seq<char>>)>
    decreases k,
{
    if k <= 0 {
        seq![]
    } else {
        let acc = statements_from(lang, results, k - 1);
        let r = results[k - 1];
        if is_string_kind(r.kind@) {
            if yields_statement(r, lang) {
                acc.push((matcher_pattern(r.raw, lang, unquoted_text(r)), seq![]))
            } else {
                acc
            }
        } else if is_argument_kind(r.kind@) && acc.len() > 0 && !crate::language::logger_identifiers(
            lang,
        ).contains(crate::language::lower_of(trim_seq(r.text@))) {
            acc.update(acc.len() - 1, (acc.last().0, acc.last().1.push(trim_seq(r.text@))))
        } else {
            acc
        }
    }
}

/// The patterns of extracted statements.
pub open spec fn patterns_of(v: Seq<(Seq<char>, Seq<Seq<char>>)>) -> Seq<Seq<char>> {
    v.map_values(|p: (Seq<char>, Seq<Seq<char>>)| p.0)
}

/// The captures of a file yield statements whose patterns cannot be combined into one matcher.
pub open spec fn extraction_fails(lang: SourceLanguage, results: Seq<QueryResult>) -> bool {
    let st = statements_from(lang, results, results.len() as int);
    st.len() > 0 && !crate::pattern::pattern_set_compiles(patterns_of(st))
}

/// The statements of `code`, from the captures of its language's logging query, in order: a
/// string capture starts a statement, and each argument capture after it adds its trimmed text
/// to the statement's arguments, unless that text names the logger or a level. None when no
/// statement was found; an error when the statements' patterns cannot be combined.
pub fn extract_statements(code: &CodeSource, results: &Vec<QueryResult>) -> (r: Result<Option<StatementsInFile>, LogError>)
    ensures
        r matches Ok(Some(f)) ==> f.wf() && f.id == code.info.id && f.log_statements@.len() > 0
            && f.path == f.log_statements@[0].source_path && statement_views(f.log_statements@)
            == statements_from(code.info.language, results@, results@.len() as int),
        r matches Ok(None) <==> statements_from(code.info.language, results@, results@.len() as int).len() == 0,
        r is Err <==> extraction_fails(code.info.language, results@),
        r matches Err(e) ==> e matches LogError::TooManyStatements { path, .. } && path@ == code.filename@,
        r matches Ok(Some(f)) ==> f.path@ == code.filename@,
{
    let ghost lang = code.info.language;
    let mut matched: Vec<SourceRef> = Vec::new();
    let mut k: usize = 0;
    while k < results.len()
        invariant
            k <= results@.len(),
            lang == code.info.language,
            forall|q: int| 0 <= q < matched@.len() ==> (#[trigger] matched@[q]).wf(),
            forall|q: int| 0 <= q < matched@.len() ==> (#[trigger] matched@[q]).source_path@ == code.filename@,
            statement_views(matched@) == statements_from(lang, results@, k as int),
        decreases results@.len() - k,
    {
        let ghost before = matched@;
        let result = &results[k];
        let kind = result.kind.as_str();
        proof {
            reveal_strlit("string_literal");
            reveal_strlit("string");
            reveal_strlit("args");
            reveal_strlit("this");
        }
        if str_equals(kind, "string_literal") || str_equals(kind, "string") {
            match SourceRef::new(code, result) {
                Some(s) => {
                    matched.push(s);
                    assert(statement_views(matched@) =~= statement_views(before).push(
                        (matcher_pattern(result.raw, lang, unquoted_text(*result)), seq![]),
                    )) by {
                        assert(crate::source_ref::var_views(matched@.last().vars@) =~= seq![]);
                    }
                },
                None => {},
            }
        } else if (str_equals(kind, "args") || str_equals(kind, "this")) && matched.len() > 0 {
            let token = trim_text(result.text.as_str());
            if !code.info.language.is_logger_identifier(token.as_str()) {
                let mut last = matched.pop().unwrap();
                assert(last == before.last());
                last.end_line_no = next_line(result.end_row);
                let ghost old_vars = last.vars@;
                last.vars.push(token);
                matched.push(last);
                assert(statement_views(matched@) =~= statement_views(before).update(
                    before.len() - 1,
                    (
                        statement_views(before).last().0,
                        statement_views(before).last().1.push(trim_seq(result.text@)),
                    ),
                )) by {
                    assert(crate::source_ref::var_views(last.vars@) =~= crate::source_ref::var_views(old_vars).push(token@));
                }
            }
        }
        k = k + 1;
    }
    if matched.len() == 0 {
        return Ok(None);
    }
    let mut patterns: Vec<String> = Vec::new();
    let mut q: usize = 0;
    while q < matched.len()
        invariant
            q <= matched@.len(),
            string_views(patterns@) == statement_patterns(matched@.subrange(0, q as int)),
        decreases matched@.len() - q,
    {
        let p = matched[q].pattern.clone();
        assert(p@ == matched@[q as int].pattern@);
        let ghost before = patterns@;
        patterns.push(p);
        proof {
            assert(string_views(before.push(p)) =~= string_views(before).push(p@));
            let m = matched@.subrange(0, q as int);
            assert(matched@.subrange(0, q + 1) =~= m.push(matched@[q as int]));
            assert(statement_patterns(m.push(matched@[q as int])) =~= statement_patterns(m).push(matched@[q as int].pattern@));
        }
        q = q + 1;
        assert(string_views(patterns@) =~= statement_patterns(matched@.subrange(0, q as int)));
    }
    assert(matched@.subrange(0, q as int) =~= matched@);
    assert(statement_patterns(matched@) =~= patterns_of(statement_views(matched@)));
    match PatternSet::new(&patterns) {
        Ok(set) => {
            let path = matched[0].source_path.clone();
            Ok(Some(StatementsInFile { path, id: code.info.id, log_statements: matched, matcher: set }))
        },
        Err(e) => Err(
            LogError::TooManyStatements {
                path: code.filename.clone(),
                message: crate::pattern::error_text(&e),
            },
        ),
    }
}

/// A file's statements as values: its identifier, path, and statements.
pub open spec fn sif_view(f: StatementsInFile) -> (SourceFileID, Seq<char>, Seq<(Seq<char>, Seq<Seq<char>>)>) {
    (f.id, f.path@, statement_views(f.log_statements@))
}

pub open spec fn sif_views(v: Seq<StatementsInFile>) -> Seq<(SourceFileID, Seq<char>, Seq<(Seq<char>, Seq<Seq<char>>)>)> {
    v.map_values(|f: StatementsInFile| sif_view(f))
}

/// The statements that the captures `rs` of `c` yield.
pub open spec fn source_statements(c: CodeSource, rs: Seq<QueryResult>) -> Seq<(Seq<char>, Seq<Seq<char>>)> {
    statements_from(c.info.language, rs, rs.len() as int)
}

/// The files with statements among the first `n` sources, in order.
pub open spec fn batch_found(sources: Seq<(CodeSource, Vec<QueryResult>)>, n: int) -> Seq<(SourceFileID, Seq<char>, Seq<(Seq<char>, Seq<Seq<char>>)>)>
    decreases n,
{
    if n <= 0 {
        seq![]
    } else {
        let prev = batch_found(sources, n - 1);
        let c = sources[n - 1].0;
        let rs = sources[n - 1].1@;
        if source_statements(c, rs).len() > 0 && !extraction_fails(c.info.language, rs) {
            prev.push((c.info.id, c.filename@, source_statements(c, rs)))
        } else {
            prev
        }
    }
}

/// The paths of the sources among the first `n` whose patterns cannot be combined, in order.
pub open spec fn batch_failed(sources: Seq<(CodeSource, Vec<QueryResult>)>, n: int) -> Seq<Seq<char>>
    decreases n,
{
    if n <= 0 {
        seq![]
    } else {
        let prev = batch_failed(sources, n - 1);
        let c = sources[n - 1].0;
        if extraction_fails(c.info.language, sources[n - 1].1@) {
            prev.push(c.filename@)
        } else {
            prev
        }
    }
}

/// The paths that errors about uncombinable statements name.
pub open spec fn failed_paths(v: Seq<LogError>) -> Seq<Seq<char>> {
    v.map_values(|e: LogError| match e {
        LogError::TooManyStatements { path, .. } => path@,
        _ => seq![],
    })
}

/// The statements of each source, with the captures of its logging query beside it, counting
/// each source as one unit of `guard`'s work: the files with statements, in order, and an error
/// for each file whose patterns cannot be combined.
pub fn extract_logging_guarded(
    sources: &Vec<(CodeSource, Vec<QueryResult>)>,
    guard: &crate::progress::WorkGuard,
) -> (r: (Vec<StatementsInFile>, Vec<LogError>))
    ensures
        sif_views(r.0@) == batch_found(sources@, sources@.len() as int),
        forall|k: int| 0 <= k < r.0@.len() ==> (#[trigger] r.0@[k]).wf(),
        failed_paths(r.1@) == batch_failed(sources@, sources@.len() as int),
        forall|k: int| 0 <= k < r.1@.len() ==> (#[trigger] r.1@[k]) is TooManyStatements,
{
    let mut found: Vec<StatementsInFile> = Vec::new();
    let mut errors: Vec<LogError> = Vec::new();
    let mut k: usize = 0;
    assert(sif_views(found@) =~= seq![]);
    assert(failed_paths(errors@) =~= seq![]);
    while k < sources.len()
        invariant
            k <= sources@.len(),
            forall|q: int| 0 <= q < found@.len() ==> (#[trigger] found@[q]).wf(),
            sif_views(found@) == batch_found(sources@, k as int),
            failed_paths(errors@) == batch_failed(sources@, k as int),
            forall|q: int| 0 <= q < errors@.len() ==> (#[trigger] errors@[q]) is TooManyStatements,
        decreases sources@.len() - k,
    {
        let ghost fb = found@;
        let ghost eb = errors@;
        match extract_statements(&sources[k].0, &sources[k].1) {
            Ok(Some(f)) => {
                found.push(f);
                assert(sif_views(found@) =~= sif_views(fb).push(sif_view(f)));
                assert(failed_paths(errors@) =~= batch_failed(sources@, k + 1));
            },
            Ok(None) => {
                assert(failed_paths(errors@) =~= batch_failed(sources@, k + 1));
            },
            Err(e) => {
                errors.push(e);
                assert(failed_paths(errors@) =~= failed_paths(eb).push(sources@[k as int].0.filename@));
            },
        }
        guard.inc(1);
        k = k + 1;
    }
    (found, errors)
}

/// The statements of each source, as [`extract_logging_guarded`] gives them, with the work
/// reported to `tracker`.
pub fn extract_logging(
    sources: &Vec<(CodeSource, Vec<QueryResult>)>,
    tracker: &crate::progress::ProgressTracker,
) -> (r: (Vec<StatementsInFile>, Vec<LogError>))
    ensures
        sif_views(r.0@) == batch_found(sources@, sources@.len() as int),
        forall|k: int| 0 <= k < r.0@.len() ==> (#[trigger] r.0@[k]).wf(),
        failed_paths(r.1@) == batch_failed(sources@, sources@.len() as int),
        forall|k: int| 0 <= k < r.1@.len() ==> (#[trigger] r.1@[k]) is TooManyStatements,
{
    let guard = tracker.doing_work(sources.len() as u64, String::from_str("files"));
    extract_logging_guarded(sources, &guard)
}

} // verus!
