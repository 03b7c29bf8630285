//! The correlator: finds the statement that wrote a log line, the values it logged, and where
//! the frames of a stack trace in it point.
use vstd::prelude::*;
use vstd::string::*;
use crate::code_source::{extract_statements, CodeSource, QueryResult, StatementsInFile};
use crate::error::LogError;
use crate::language::SourceLanguage;
use crate::log_format::LogFormat;
use crate::log_ref::{body_of, parse_number, LogDetails, LogRef, StackTrace};
use crate::pattern::{pattern_captures, Pattern};
use crate::progress::ProgressTracker;
use crate::source_hier::{
    all_scanned, event_views, files_of, join_path, same_shape, unreported, FsEntry, ScanEvent, ScanEventView,
    SourceFileID, SourceFileInfo, SourceHierTree,
};
use crate::code_source::{sif_view, sif_views};
use crate::format::arg_views;
use crate::source_ref::{extract_variables_from, pair_views, variables_of, CallSite, SourceRef, VariablePair};
use crate::text::{contains_seq, contains_text};

verus! {

/// A frame of a JVM stack trace: `at pkg.Class.method(File.java:123)`.
pub const JAVA_CALLER_PATTERN: &'static str = r#"(?smx)
    (?:
        ^\s+at\s+(?<pkg>(?:[^.\n(]+\.)*)(?<class>[^.$\n(]+)\.(?<name>\S+)\((?<file>[^:]+):(?<line>\d+)\)\s*$\n?
    )
"#;

/// A frame of a Python traceback: `File "path", line N, in name`.
pub const PYTHON_CALLER_PATTERN: &'static str = r#"(?smx)
    (?:
        ^\s+File\s+"(?<path>[^"]+)",\s+line\s+(?<line>\d+),\s+in\s+(?<name>[^\n]+)$\n?
    )
"#;

/// The source files under one root, and the statements of those that have any.
pub struct SourceTree {
    pub tree: SourceHierTree,
    pub files_with_statements: Vec<StatementsInFile>,
}

/// The source roots that log lines are matched against.
pub struct LogMatcher {
    pub roots: Vec<(String, SourceTree)>,
}

/// A log line with the statement that wrote it, the values it logged, and the resolved frames
/// of its stack trace.
pub struct LogMapping {
    pub log_ref: LogRef,
    pub src_ref: Option<SourceRef>,
    pub exception_trace: Vec<CallSite>,
    pub variables: Vec<VariablePair>,
}

/// A source file read by the caller, with the captures of its language's logging query.
pub struct ParsedSource {
    pub root: usize,
    pub code: CodeSource,
    pub results: Vec<QueryResult>,
}

/// Whether the root `root` covers `path`: it is the root or lies beneath it.
pub open spec fn covers(root: Seq<char>, path: Seq<char>) -> bool {
    path == root || (root.len() > 0 && root.last() == '/' && root.len() <= path.len()
        && path.subrange(0, root.len() as int) == root) || (root.len() < path.len() && path[root.len() as int] == '/'
        && path.subrange(0, root.len() as int) == root)
}

fn covers_exec(root: &str, path: &str) -> (r: bool)
    ensures
        r == covers(root@, path@),
{
    let rc = crate::text::chars_of(root);
    let pc = crate::text::chars_of(path);
    if rc.len() > pc.len() {
        assert(pc@.len() != rc@.len());
        return false;
    }
    let mut k: usize = 0;
    while k < rc.len()
        invariant
            k <= rc@.len() <= pc@.len(),
            rc@ == root@,
            pc@ == path@,
            forall|q: int| 0 <= q < k ==> rc@[q] == pc@[q],
        decreases rc@.len() - k,
    {
        if rc[k] != pc[k] {
            assert(pc@.subrange(0, rc@.len() as int)[k as int] != rc@[k as int]);
            assert(pc@[k as int] != rc@[k as int]);
            assert(pc@ != rc@);
            return false;
        }
        k = k + 1;
    }
    assert(pc@.subrange(0, rc@.len() as int) =~= rc@);
    if rc.len() == pc.len() {
        assert(pc@ =~= rc@);
        return true;
    }
    (rc.len() > 0 && rc[rc.len() - 1] == '/') || pc[rc.len()] == '/'
}

/// The file that a log line names, where it names one and has a body.
pub open spec fn hint_of(r: LogRef) -> Option<Seq<char>> {
    match r.details {
        Some(d) => match (d.file, d.body) {
            (Some(f), Some(_)) => Some(f@),
            _ => None,
        },
        None => None,
    }
}

/// Whether a file's statements are considered for a log line with the hint `hint`.
pub open spec fn candidate(f: StatementsInFile, hint: Option<Seq<char>>) -> bool {
    match hint {
        Some(h) => contains_seq(f.path@, h),
        None => true,
    }
}

/// Whether statement `s` matches the text `body`.
pub open spec fn matches_body(s: SourceRef, body: Seq<char>) -> bool {
    pattern_captures(s.matcher@, body) is Some
}

/// The events that scanning tree `t` reports: its pending deletions, then its unreported files.
pub open spec fn scan_events_of(t: SourceHierTree) -> Seq<ScanEventView> {
    t.pending() + unreported(t.root_node, t.root_path@)
}

/// The new files that the events `ev` report, in order.
pub open spec fn new_files_in(ev: Seq<ScanEventView>) -> Seq<(Seq<char>, SourceFileInfo)>
    decreases ev.len(),
{
    if ev.len() == 0 {
        seq![]
    } else {
        let prev = new_files_in(ev.subrange(0, ev.len() - 1));
        match ev[ev.len() - 1] {
            ScanEventView::NewFile(p, info) => prev.push((p, info)),
            _ => prev,
        }
    }
}

/// Event `q` of `ev` deletes the file with identifier `id`.
pub open spec fn deletes_at(ev: Seq<ScanEventView>, q: int, id: SourceFileID) -> bool {
    0 <= q < ev.len() && (ev[q] matches ScanEventView::DeletedFile(_, d) && d == id)
}

pub open spec fn deletes_id(ev: Seq<ScanEventView>, id: SourceFileID) -> bool {
    exists|q: int| #[trigger] deletes_at(ev, q, id)
}

/// The files of `files` that no event of `ev` deletes, in order.
pub open spec fn live_files(
    files: Seq<(SourceFileID, Seq<char>, Seq<(Seq<char>, Seq<Seq<char>>)>)>,
    ev: Seq<ScanEventView>,
) -> Seq<(SourceFileID, Seq<char>, Seq<(Seq<char>, Seq<Seq<char>>)>)>
    decreases files.len(),
{
    if files.len() == 0 {
        seq![]
    } else {
        let rest = live_files(files.subrange(1, files.len() as int), ev);
        if deletes_id(ev, files[0].0) {
            rest
        } else {
            seq![files[0]] + rest
        }
    }
}

pub open spec fn tagged(i: int, fs: Seq<(Seq<char>, SourceFileInfo)>) -> Seq<(usize, Seq<char>, SourceFileInfo)> {
    fs.map_values(|x: (Seq<char>, SourceFileInfo)| (i as usize, x.0, x.1))
}

pub open spec fn found_views(v: Seq<(usize, String, SourceFileInfo)>) -> Seq<(usize, Seq<char>, SourceFileInfo)> {
    v.map_values(|x: (usize, String, SourceFileInfo)| (x.0, x.1@, x.2))
}

/// The new files that scanning the first `n` roots reports, each with its root's index.
pub open spec fn scan_found(roots: Seq<(String, SourceTree)>, n: int) -> Seq<(usize, Seq<char>, SourceFileInfo)>
    decreases n,
{
    if n <= 0 {
        seq![]
    } else {
        scan_found(roots, n - 1) + tagged(n - 1, new_files_in(scan_events_of(roots[n - 1].1.tree)))
    }
}

/// The files of `files` without the one of identifier `id`.
pub open spec fn without_id(
    files: Seq<(SourceFileID, Seq<char>, Seq<(Seq<char>, Seq<Seq<char>>)>)>,
    id: SourceFileID,
) -> Seq<(SourceFileID, Seq<char>, Seq<(Seq<char>, Seq<Seq<char>>)>)>
    decreases files.len(),
{
    if files.len() == 0 {
        seq![]
    } else {
        let rest = without_id(files.subrange(1, files.len() as int), id);
        if files[0].0 == id {
            rest
        } else {
            seq![files[0]] + rest
        }
    }
}

/// `files` with `f` filed in place of any earlier entry for the same file.
pub open spec fn file_into(
    files: Seq<(SourceFileID, Seq<char>, Seq<(Seq<char>, Seq<Seq<char>>)>)>,
    f: (SourceFileID, Seq<char>, Seq<(Seq<char>, Seq<Seq<char>>)>),
) -> Seq<(SourceFileID, Seq<char>, Seq<(Seq<char>, Seq<Seq<char>>)>)> {
    without_id(files, f.0).push(f)
}

/// The files with statements of each root, as values.
pub open spec fn root_files(roots: Seq<(String, SourceTree)>) -> Seq<Seq<(SourceFileID, Seq<char>, Seq<(Seq<char>, Seq<Seq<char>>)>)>> {
    roots.map_values(|r: (String, SourceTree)| sif_views(r.1.files_with_statements@))
}

/// The files of each root after filing the statements of the first `n` parsed sources, each
/// under the root it names, where that root exists.
pub open spec fn filed_roots(
    roots: Seq<Seq<(SourceFileID, Seq<char>, Seq<(Seq<char>, Seq<Seq<char>>)>)>>,
    sources: Seq<ParsedSource>,
    n: int,
) -> Seq<Seq<(SourceFileID, Seq<char>, Seq<(Seq<char>, Seq<Seq<char>>)>)>>
    decreases n,
{
    if n <= 0 {
        roots
    } else {
        let prev = filed_roots(roots, sources, n - 1);
        let src = sources[n - 1];
        let st = crate::code_source::source_statements(src.code, src.results@);
        if st.len() > 0 && !crate::code_source::extraction_fails(src.code.info.language, src.results@)
            && src.root < prev.len() {
            prev.update(src.root as int, file_into(prev[src.root as int], (src.code.info.id, src.code.filename@, st)))
        } else {
            prev
        }
    }
}

/// The paths of the first `n` parsed sources whose patterns cannot be combined, in order.
pub open spec fn parsed_failed(sources: Seq<ParsedSource>, n: int) -> Seq<Seq<char>>
    decreases n,
{
    if n <= 0 {
        seq![]
    } else {
        let prev = parsed_failed(sources, n - 1);
        let src = sources[n - 1];
        if crate::code_source::extraction_fails(src.code.info.language, src.results@) {
            prev.push(src.code.filename@)
        } else {
            prev
        }
    }
}

/// The text of group `k` of a match in `t`; empty where the group did not take part.
pub open spec fn group_of(t: Seq<char>, g: Seq<Option<(int, int)>>, k: int) -> Seq<char> {
    if 0 <= k < g.len() && g[k] is Some {
        let r = g[k]->0;
        t.subrange(r.0, r.1)
    } else {
        seq![]
    }
}

fn group_string(cs: &Vec<char>, g: &Vec<Option<(usize, usize)>>, k: usize) -> (r: String)
    requires
        crate::pattern::spans_within(crate::pattern::span_views(g@), cs@.len() as int),
    ensures
        r@ == group_of(cs@, crate::pattern::span_views(g@), k as int),
{
    if k < g.len() {
        match g[k] {
            Some((a, b)) => {
                assert(crate::pattern::span_views(g@)[k as int] == Some((a as int, b as int)));
                let mut out: Vec<char> = Vec::new();
                let mut q: usize = a;
                while q < b
                    invariant
                        a <= q <= b <= cs@.len(),
                        out@ == cs@.subrange(a as int, q as int),
                    decreases b - q,
                {
                    out.push(cs[q]);
                    q = q + 1;
                    assert(out@ =~= cs@.subrange(a as int, q as int));
                }
                crate::text::string_of(out.as_slice())
            },
            None => {
                assert(crate::pattern::span_views(g@)[k as int] is None);
                String::new()
            },
        }
    } else {
        String::new()
    }
}

/// A call site as values: name, path, language and line.
pub open spec fn site_views(v: Seq<CallSite>) -> Seq<(Seq<char>, Seq<char>, SourceLanguage, nat)> {
    v.map_values(|c: CallSite| (c.name@, c.source_path@, c.language, c.line_no as nat))
}

/// The call sites of the first `n` Python frames `frames` of `t`: one for each frame whose line
/// is a number, with the frame's name, path and line.
pub open spec fn python_sites(t: Seq<char>, frames: Seq<Seq<Option<(int, int)>>>, n: int) -> Seq<(Seq<char>, Seq<char>, SourceLanguage, nat)>
    decreases n,
{
    if n <= 0 {
        seq![]
    } else {
        let prev = python_sites(t, frames, n - 1);
        let g = frames[n - 1];
        match crate::log_ref::parse_usize(group_of(t, g, 2)) {
            Some(l) => prev.push((group_of(t, g, 3), group_of(t, g, 1), SourceLanguage::Python, l)),
            None => prev,
        }
    }
}

/// The actual path of the first file that `p` leads to, under the first root where it leads to
/// any, looking from root `i` on.
pub open spec fn first_root_hit(m: LogMatcher, p: Seq<char>, i: int) -> Option<Seq<char>>
    decreases m.roots@.len() - i,
{
    if 0 <= i < m.roots@.len() {
        let hits = crate::source_hier::tree_find(m.roots@[i].1.tree, p);
        if hits.len() > 0 {
            Some(hits[0].0)
        } else {
            first_root_hit(m, p, i + 1)
        }
    } else {
        None
    }
}

/// The path that a JVM frame names: its package as directories, then its file.
pub open spec fn frame_path(t: Seq<char>, g: Seq<Option<(int, int)>>) -> Seq<char> {
    crate::source_hier::joined(dots_to_slashes(group_of(t, g, 1)), group_of(t, g, 4))
}

/// The call sites of the first `n` JVM frames `frames` of `t`: one for each frame whose file is
/// found under a root and whose line is a number, with the frame's method name, the file's
/// actual path and the line.
pub open spec fn java_sites(m: LogMatcher, t: Seq<char>, frames: Seq<Seq<Option<(int, int)>>>, n: int) -> Seq<(Seq<char>, Seq<char>, SourceLanguage, nat)>
    decreases n,
{
    if n <= 0 {
        seq![]
    } else {
        let prev = java_sites(m, t, frames, n - 1);
        let g = frames[n - 1];
        match (first_root_hit(m, frame_path(t, g), 0), crate::log_ref::parse_usize(group_of(t, g, 5))) {
            (Some(p), Some(l)) => prev.push((group_of(t, g, 3), p, SourceLanguage::Java, l)),
            _ => prev,
        }
    }
}

/// The call sites that a trace of language `lang` with text `t` resolves to under `m`.
pub open spec fn trace_sites(m: LogMatcher, lang: SourceLanguage, t: Seq<char>) -> Seq<(Seq<char>, Seq<char>, SourceLanguage, nat)> {
    match lang {
        SourceLanguage::Java => if crate::pattern::pattern_compiles(JAVA_CALLER_PATTERN@) {
            let f = crate::pattern::pattern_all_captures(JAVA_CALLER_PATTERN@, t);
            java_sites(m, t, f, f.len() as int)
        } else {
            seq![]
        },
        SourceLanguage::Python => if crate::pattern::pattern_compiles(PYTHON_CALLER_PATTERN@) {
            let f = crate::pattern::pattern_all_captures(PYTHON_CALLER_PATTERN@, t);
            python_sites(t, f, f.len() as int)
        } else {
            seq![]
        },
        _ => seq![],
    }
}

/// `s` with each `.` turned into `/`.
pub open spec fn dots_to_slashes(s: Seq<char>) -> Seq<char> {
    s.map_values(|c: char| if c == '.' { '/' } else { c })
}

fn package_path(pkg: &str) -> (r: String)
    ensures
        r@ == dots_to_slashes(pkg@),
{
    let cs = crate::text::chars_of(pkg);
    let mut out: Vec<char> = Vec::new();
    let mut k: usize = 0;
    while k < cs.len()
        invariant
            k <= cs@.len(),
            out@ == dots_to_slashes(cs@.subrange(0, k as int)),
        decreases cs@.len() - k,
    {
        out.push(if cs[k] == '.' { '/' } else { cs[k] });
        k = k + 1;
        assert(out@ =~= dots_to_slashes(cs@.subrange(0, k as int)));
    }
    assert(cs@.subrange(0, k as int) =~= cs@);
    crate::text::string_of(out.as_slice())
}

/// A path is one of the files of one of the roots.
pub open spec fn is_root_file(m: LogMatcher, p: Seq<char>) -> bool {
    exists|i: int, info: SourceFileInfo|
        0 <= i < m.roots@.len() && files_of(m.roots@[i].1.tree.root_node, m.roots@[i].1.tree.root_path@).contains((p, info))
}

impl StackTrace {
    /// The frames of this trace that resolve to source, as [`trace_sites`] states: a JVM frame
    /// names its class's package and file, which are looked up under the roots and kept where
    /// found; a Python frame names its path directly.
    pub fn to_exception_trace(&self, log_matcher: &LogMatcher) -> (r: Vec<CallSite>)
        ensures
            site_views(r@) == trace_sites(*log_matcher, self.language, self.content@),
            self.language == SourceLanguage::Java ==> forall|k: int|
                0 <= k < r@.len() ==> is_root_file(*log_matcher, (#[trigger] r@[k]).source_path@),
    {
        let mut out: Vec<CallSite> = Vec::new();
        assert(site_views(out@) =~= seq![]);
        match self.language {
            SourceLanguage::Java => {
                let re = match Pattern::new(JAVA_CALLER_PATTERN) {
                    Ok(p) => p,
                    Err(_) => {
                        return out;
                    },
                };
                let cs = crate::text::chars_of(self.content.as_str());
                let frames = re.all_captures(self.content.as_str());
                let ghost fs = crate::pattern::pattern_all_captures(JAVA_CALLER_PATTERN@, self.content@);
                let mut k: usize = 0;
                while k < frames.len()
                    invariant
                        k <= frames@.len(),
                        frames@.len() == fs.len(),
                        fs == crate::pattern::pattern_all_captures(JAVA_CALLER_PATTERN@, self.content@),
                        forall|j: int| 0 <= j < frames@.len() ==> crate::pattern::span_views(#[trigger] frames@[j]@) == fs[j],
                        cs@ == self.content@,
                        self.language == SourceLanguage::Java,
                        forall|j: int|
                            0 <= j < frames@.len() ==> crate::pattern::spans_within(
                                crate::pattern::span_views(#[trigger] frames@[j]@),
                                self.content@.len() as int,
                            ),
                        site_views(out@) == java_sites(*log_matcher, self.content@, fs, k as int),
                        forall|j: int| 0 <= j < out@.len() ==> is_root_file(*log_matcher, (#[trigger] out@[j]).source_path@),
                    decreases frames@.len() - k,
                {
                    let g = &frames[k];
                    let ghost gv = fs[k as int];
                    assert(crate::pattern::span_views(frames@[k as int]@) == gv);
                    let pkg = group_string(&cs, g, 1);
                    let file = group_string(&cs, g, 4);
                    let dir = package_path(pkg.as_str());
                    let class_path = join_path(dir.as_str(), file.as_str());
                    assert(class_path@ == frame_path(self.content@, gv));
                    let mut found: Option<String> = None;
                    let mut i: usize = 0;
                    while i < log_matcher.roots.len() && found.is_none()
                        invariant
                            i <= log_matcher.roots@.len(),
                            found matches Some(p) ==> is_root_file(*log_matcher, p@),
                            found is None ==> first_root_hit(*log_matcher, class_path@, 0) == first_root_hit(*log_matcher, class_path@, i as int),
                            found matches Some(p) ==> first_root_hit(*log_matcher, class_path@, 0) == Some(p@),
                        decreases log_matcher.roots@.len() - i,
                    {
                        let tree = &log_matcher.roots[i].1.tree;
                        let hits = tree.find_file(class_path.as_str());
                        if hits.len() > 0 {
                            assert(files_of(tree.root_node, tree.root_path@).contains((hits@[0].0@, hits@[0].1)));
                            assert(crate::source_hier::hit_views(hits@)[0] == (hits@[0].0@, hits@[0].1));
                            found = Some(hits[0].0.clone());
                        }
                        i = i + 1;
                    }
                    let ghost before = out@;
                    let line = group_string(&cs, g, 5);
                    match found {
                        Some(path) => {
                            match parse_number(line.as_str()) {
                                Some(n) => {
                                    let name = group_string(&cs, g, 3);
                                    out.push(CallSite {
                                        name,
                                        source_path: path,
                                        language: SourceLanguage::Java,
                                        line_no: n,
                                    });
                                    assert(site_views(out@) =~= site_views(before).push(
                                        (name@, path@, SourceLanguage::Java, n as nat),
                                    ));
                                },
                                None => {},
                            }
                        },
                        None => {
                            assert(first_root_hit(*log_matcher, class_path@, i as int) is None);
                        },
                    }
                    k = k + 1;
                }
            },
            SourceLanguage::Python => {
                let re = match Pattern::new(PYTHON_CALLER_PATTERN) {
                    Ok(p) => p,
                    Err(_) => {
                        return out;
                    },
                };
                let cs = crate::text::chars_of(self.content.as_str());
                let frames = re.all_captures(self.content.as_str());
                let ghost fs = crate::pattern::pattern_all_captures(PYTHON_CALLER_PATTERN@, self.content@);
                let mut k: usize = 0;
                while k < frames.len()
                    invariant
                        k <= frames@.len(),
                        frames@.len() == fs.len(),
                        fs == crate::pattern::pattern_all_captures(PYTHON_CALLER_PATTERN@, self.content@),
                        forall|j: int| 0 <= j < frames@.len() ==> crate::pattern::span_views(#[trigger] frames@[j]@) == fs[j],
                        cs@ == self.content@,
                        self.language == SourceLanguage::Python,
                        forall|j: int|
                            0 <= j < frames@.len() ==> crate::pattern::spans_within(
                                crate::pattern::span_views(#[trigger] frames@[j]@),
                                self.content@.len() as int,
                            ),
                        site_views(out@) == python_sites(self.content@, fs, k as int),
                    decreases frames@.len() - k,
                {
                    let g = &frames[k];
                    let ghost gv = fs[k as int];
                    assert(crate::pattern::span_views(frames@[k as int]@) == gv);
                    let ghost before = out@;
                    let line = group_string(&cs, g, 2);
                    match parse_number(line.as_str()) {
                        Some(n) => {
                            let name = group_string(&cs, g, 3);
                            let path = group_string(&cs, g, 1);
                            out.push(CallSite { name, source_path: path, language: SourceLanguage::Python, line_no: n });
                            assert(site_views(out@) =~= site_views(before).push(
                                (name@, path@, SourceLanguage::Python, n as nat),
                            ));
                        },
                        None => {},
                    }
                    k = k + 1;
                }
            },
            _ => {},
        }
        out
    }
}

/// No two roots have the same path.
pub open spec fn roots_distinct(roots: Seq<(String, SourceTree)>) -> bool {
    forall|i: int, j: int| 0 <= i < j < roots.len() ==> roots[i].0@ != roots[j].0@
}

/// No two files have the same identifier.
pub open spec fn ids_unique(files: Seq<(SourceFileID, Seq<char>, Seq<(Seq<char>, Seq<Seq<char>>)>)>) -> bool {
    forall|j: int, k: int| 0 <= j < k < files.len() ==> files[j].0 != files[k].0
}

proof fn lemma_without_id(v: Seq<(SourceFileID, Seq<char>, Seq<(Seq<char>, Seq<Seq<char>>)>)>, id: SourceFileID)
    ensures
        forall|k: int| 0 <= k < without_id(v, id).len() ==> v.contains(#[trigger] without_id(v, id)[k]) && without_id(v, id)[k].0 != id,
        ids_unique(v) ==> ids_unique(without_id(v, id)),
    decreases v.len(),
{
    if v.len() > 0 {
        let rest = v.subrange(1, v.len() as int);
        lemma_without_id(rest, id);
        let w = without_id(rest, id);
        assert forall|k: int| 0 <= k < w.len() implies v.contains(#[trigger] w[k]) by {
            let q = choose|q: int| 0 <= q < rest.len() && rest[q] == w[k];
            assert(v[q + 1] == w[k]);
        }
        if ids_unique(v) {
            assert(ids_unique(rest)) by {
                assert forall|j: int, k: int| 0 <= j < k < rest.len() implies rest[j].0 != rest[k].0 by {
                    assert(rest[j] == v[j + 1] && rest[k] == v[k + 1]);
                }
            }
            if v[0].0 != id {
                let full = seq![v[0]] + w;
                assert forall|j: int, k: int| 0 <= j < k < full.len() implies full[j].0 != full[k].0 by {
                    if j == 0 {
                        let q = choose|q: int| 0 <= q < rest.len() && rest[q] == w[k - 1];
                        assert(v[q + 1] == full[k]);
                    } else {
                        assert(full[j] == w[j - 1] && full[k] == w[k - 1]);
                    }
                }
            }
        }
        if v[0].0 != id {
            let full = seq![v[0]] + w;
            assert forall|k: int| 0 <= k < full.len() implies v.contains(#[trigger] full[k]) && full[k].0 != id by {
                if k == 0 {
                    assert(v[0] == full[0]);
                } else {
                    assert(full[k] == w[k - 1]);
                }
            }
        }
    }
}

proof fn lemma_live_files(v: Seq<(SourceFileID, Seq<char>, Seq<(Seq<char>, Seq<Seq<char>>)>)>, ev: Seq<ScanEventView>)
    ensures
        forall|k: int| 0 <= k < live_files(v, ev).len() ==> v.contains(#[trigger] live_files(v, ev)[k]),
        ids_unique(v) ==> ids_unique(live_files(v, ev)),
    decreases v.len(),
{
    if v.len() > 0 {
        let rest = v.subrange(1, v.len() as int);
        lemma_live_files(rest, ev);
        let w = live_files(rest, ev);
        assert forall|k: int| 0 <= k < w.len() implies v.contains(#[trigger] w[k]) by {
            let q = choose|q: int| 0 <= q < rest.len() && rest[q] == w[k];
            assert(v[q + 1] == w[k]);
        }
        if ids_unique(v) {
            assert(ids_unique(rest)) by {
                assert forall|j: int, k: int| 0 <= j < k < rest.len() implies rest[j].0 != rest[k].0 by {
                    assert(rest[j] == v[j + 1] && rest[k] == v[k + 1]);
                }
            }
            if !deletes_id(ev, v[0].0) {
                let full = seq![v[0]] + w;
                assert forall|j: int, k: int| 0 <= j < k < full.len() implies full[j].0 != full[k].0 by {
                    if j == 0 {
                        let q = choose|q: int| 0 <= q < rest.len() && rest[q] == w[k - 1];
                        assert(v[q + 1] == full[k]);
                    } else {
                        assert(full[j] == w[j - 1] && full[k] == w[k - 1]);
                    }
                }
            }
        }
        if !deletes_id(ev, v[0].0) {
            let full = seq![v[0]] + w;
            assert forall|k: int| 0 <= k < full.len() implies v.contains(#[trigger] full[k]) by {
                if k == 0 {
                    assert(v[0] == full[0]);
                } else {
                    assert(full[k] == w[k - 1]);
                }
            }
        }
    }
}

impl LogMatcher {
    pub open spec fn wf(&self) -> bool {
        &&& forall|i: int, f: int|
            0 <= i < self.roots@.len() && 0 <= f < self.roots@[i].1.files_with_statements@.len()
                ==> (#[trigger] self.roots@[i].1.files_with_statements@[f]).wf()
        &&& roots_distinct(self.roots@)
        &&& forall|i: int| 0 <= i < self.roots@.len() ==> ids_unique(sif_views((#[trigger] self.roots@[i]).1.files_with_statements@))
    }

    /// A matcher without roots.
    pub fn new() -> (r: LogMatcher)
        ensures
            r.roots@.len() == 0,
            r.wf(),
    {
        LogMatcher { roots: Vec::new() }
    }

    /// Whether no statement was found under any root.
    pub fn is_empty(&self) -> (r: bool)
        ensures
            r == forall|i: int| 0 <= i < self.roots@.len() ==> (#[trigger] self.roots@[i]).1.files_with_statements@.len() == 0,
    {
        let mut i: usize = 0;
        while i < self.roots.len()
            invariant
                i <= self.roots@.len(),
                forall|q: int| 0 <= q < i ==> (#[trigger] self.roots@[q]).1.files_with_statements@.len() == 0,
            decreases self.roots@.len() - i,
        {
            if self.roots[i].1.files_with_statements.len() > 0 {
                return false;
            }
            i = i + 1;
        }
        true
    }

    /// The first root that covers `path`.
    pub fn match_path(&self, path: &str) -> (r: Option<usize>)
        ensures
            r matches Some(i) ==> i < self.roots@.len() && covers(self.roots@[i as int].0@, path@),
            r is None ==> forall|i: int| 0 <= i < self.roots@.len() ==> !covers((#[trigger] self.roots@[i]).0@, path@),
    {
        let mut i: usize = 0;
        while i < self.roots.len()
            invariant
                i <= self.roots@.len(),
                forall|q: int| 0 <= q < i ==> !covers((#[trigger] self.roots@[q]).0@, path@),
            decreases self.roots@.len() - i,
        {
            if covers_exec(self.roots[i].0.as_str(), path) {
                return Some(i);
            }
            i = i + 1;
        }
        None
    }

    /// Adds the source root `path`; refused when a root already covers it.
    pub fn add_root(&mut self, path: &str) -> (r: Result<(), LogError>)
        requires
            old(self).wf(),
        ensures
            final(self).wf(),
            (exists|i: int| 0 <= i < old(self).roots@.len() && covers(old(self).roots@[i].0@, path@))
                ==> (r matches Err(LogError::PathExists { path: p, root: q }) && p@ == path@ && exists|i: int|
                0 <= i < old(self).roots@.len() && covers(old(self).roots@[i].0@, path@) && q@ == old(self).roots@[i].0@)
                && final(self).roots@ == old(self).roots@,
            (forall|i: int| 0 <= i < old(self).roots@.len() ==> !covers((#[trigger] old(self).roots@[i]).0@, path@))
                ==> (r is Ok && final(self).roots@.len() == old(self).roots@.len() + 1
                && final(self).roots@.last().0@ == path@ && final(self).roots@.last().1.tree.root_path@ == path@
                && final(self).roots@.last().1.files_with_statements@.len() == 0
                && final(self).roots@.subrange(0, old(self).roots@.len() as int) == old(self).roots@),
    {
        match self.match_path(path) {
            Some(i) => Err(LogError::PathExists { path: String::from_str(path), root: self.roots[i].0.clone() }),
            None => {
                let tree = SourceTree { tree: SourceHierTree::from(path), files_with_statements: Vec::new() };
                let ghost before = self.roots@;
                self.roots.push((String::from_str(path), tree));
                assert(self.roots@.subrange(0, before.len() as int) =~= before);
                assert forall|i: int, f: int|
                    0 <= i < self.roots@.len() && 0 <= f < self.roots@[i].1.files_with_statements@.len()
                        implies (#[trigger] self.roots@[i].1.files_with_statements@[f]).wf() by {
                    assert(self.roots@[i] == before[i]);
                }
                Ok(())
            },
        }
    }

    /// Brings each root's tree in step with its snapshot, `snapshots[i]` for root `i`, and
    /// gives the paths that could not be read. A root without a snapshot is left as it is.
    pub fn discover_sources(&mut self, snapshots: &Vec<FsEntry>, tracker: &ProgressTracker) -> (r: Vec<LogError>)
        requires
            old(self).wf(),
        ensures
            final(self).wf(),
            final(self).roots@.len() == old(self).roots@.len(),
            forall|q: int| 0 <= q < old(self).roots@.len() ==> {
                let before = old(self).roots@[q];
                let after = #[trigger] final(self).roots@[q];
                &&& after.0 == before.0
                &&& after.1.files_with_statements == before.1.files_with_statements
                &&& after.1.tree.root_path == before.1.tree.root_path
                &&& (q < snapshots@.len() ==> after.1.tree.pending() == before.1.tree.pending() + crate::source_hier::sync_events(
                    before.1.tree.root_node,
                    snapshots@[q],
                    before.1.tree.root_path@,
                ))
                &&& (q >= snapshots@.len() ==> after.1.tree == before.1.tree)
            },
    {
        tracker.begin_step(String::from_str("Finding source code"));
        let guard = tracker.doing_work(self.roots.len() as u64, String::from_str("paths"));
        let mut pending: Vec<(String, SourceTree)> = Vec::new();
        std::mem::swap(&mut pending, &mut self.roots);
        let ghost orig = pending@;
        let ghost n = pending@.len();
        let mut errors: Vec<LogError> = Vec::new();
        let mut file_count: usize = 0;
        assert(orig.subrange(0, n as int) =~= orig);
        while pending.len() > 0
            invariant
                self.wf(),
                orig == old(self).roots@,
                roots_distinct(orig),
                forall|q: int| 0 <= q < orig.len() ==> ids_unique(sif_views((#[trigger] orig[q]).1.files_with_statements@)),
                n == orig.len(),
                self.roots@.len() + pending@.len() == n,
                pending@ == orig.subrange(self.roots@.len() as int, n as int),
                forall|q: int| 0 <= q < self.roots@.len() ==> {
                    let before = orig[q];
                    let after = #[trigger] self.roots@[q];
                    &&& after.0 == before.0
                    &&& after.1.files_with_statements == before.1.files_with_statements
                    &&& after.1.tree.root_path == before.1.tree.root_path
                    &&& (q < snapshots@.len() ==> after.1.tree.pending() == before.1.tree.pending() + crate::source_hier::sync_events(
                        before.1.tree.root_node,
                        snapshots@[q],
                        before.1.tree.root_path@,
                    ))
                    &&& (q >= snapshots@.len() ==> after.1.tree == before.1.tree)
                },
                forall|q: int, f: int|
                    0 <= q < orig.len() && 0 <= f < orig[q].1.files_with_statements@.len()
                        ==> (#[trigger] orig[q].1.files_with_statements@[f]).wf(),
            decreases pending@.len(),
        {
            let ghost before = pending@;
            let ghost done = self.roots@;
            let i = self.roots.len();
            let (path, mut st) = pending.remove(0);
            assert(before[0] == orig[i as int]);
            assert(pending@ =~= orig.subrange(i + 1, n as int));
            if i < snapshots.len() {
                st.tree.sync(&snapshots[i]);
            }
            file_count = if file_count > usize::MAX - st.tree.stats.files {
                usize::MAX
            } else {
                file_count + st.tree.stats.files
            };
            let mut errs = st.tree.errors();
            errors.append(&mut errs);
            self.roots.push((path, st));
            assert forall|q: int, f: int|
                0 <= q < self.roots@.len() && 0 <= f < self.roots@[q].1.files_with_statements@.len()
                    implies (#[trigger] self.roots@[q].1.files_with_statements@[f]).wf() by {
                if q < done.len() {
                    assert(self.roots@[q] == done[q]);
                } else {
                    assert(self.roots@[q].1.files_with_statements == orig[q].1.files_with_statements);
                    assert(orig[q].1.files_with_statements@[f].wf());
                }
            }
            assert forall|q: int| 0 <= q < self.roots@.len() implies {
                let before = orig[q];
                let after = #[trigger] self.roots@[q];
                &&& after.0 == before.0
                &&& after.1.files_with_statements == before.1.files_with_statements
                &&& after.1.tree.root_path == before.1.tree.root_path
                &&& (q < snapshots@.len() ==> after.1.tree.pending() == before.1.tree.pending() + crate::source_hier::sync_events(
                    before.1.tree.root_node,
                    snapshots@[q],
                    before.1.tree.root_path@,
                ))
                &&& (q >= snapshots@.len() ==> after.1.tree == before.1.tree)
            } by {
                if q < done.len() {
                    assert(self.roots@[q] == done[q]);
                }
            }
            assert(roots_distinct(self.roots@)) by {
                assert forall|a: int, b: int| 0 <= a < b < self.roots@.len() implies self.roots@[a].0@ != self.roots@[b].0@ by {
                    assert(self.roots@[a].0 == orig[a].0 && self.roots@[b].0 == orig[b].0);
                }
            }
            assert forall|q: int| 0 <= q < self.roots@.len() implies ids_unique(sif_views((#[trigger] self.roots@[q]).1.files_with_statements@)) by {
                assert(self.roots@[q].1.files_with_statements == orig[q].1.files_with_statements);
            }
            guard.inc(1);
        }
        let mut msg = crate::error::number_text(file_count);
        msg.append(" files found");
        tracker.end_step(msg);
        errors
    }

    /// Scans every root: forgets the statements of files that a deletion names, and gives each
    /// new file with the index of its root, for the caller to read and parse.
    pub fn scan_sources(&mut self) -> (r: Vec<(usize, String, SourceFileInfo)>)
        requires
            old(self).wf(),
        ensures
            final(self).wf(),
            final(self).roots@.len() == old(self).roots@.len(),
            found_views(r@) == scan_found(old(self).roots@, old(self).roots@.len() as int),
            forall|q: int| 0 <= q < old(self).roots@.len() ==> {
                let before = old(self).roots@[q];
                let after = #[trigger] final(self).roots@[q];
                &&& after.0 == before.0
                &&& sif_views(after.1.files_with_statements@) == live_files(
                    sif_views(before.1.files_with_statements@),
                    scan_events_of(before.1.tree),
                )
                &&& after.1.tree.pending() == Seq::<ScanEventView>::empty()
                &&& all_scanned(after.1.tree.root_node)
                &&& same_shape(before.1.tree.root_node, after.1.tree.root_node)
                &&& after.1.tree.root_path == before.1.tree.root_path
            },
    {
        let mut pending: Vec<(String, SourceTree)> = Vec::new();
        std::mem::swap(&mut pending, &mut self.roots);
        let ghost orig = pending@;
        let ghost n = pending@.len();
        let mut found: Vec<(usize, String, SourceFileInfo)> = Vec::new();
        assert(orig.subrange(0, n as int) =~= orig);
        assert(found_views(found@) =~= scan_found(orig, 0));
        while pending.len() > 0
            invariant
                self.wf(),
                orig == old(self).roots@,
                roots_distinct(orig),
                forall|q: int| 0 <= q < orig.len() ==> ids_unique(sif_views((#[trigger] orig[q]).1.files_with_statements@)),
                n == orig.len(),
                self.roots@.len() + pending@.len() == n,
                pending@ == orig.subrange(self.roots@.len() as int, n as int),
                found_views(found@) == scan_found(orig, self.roots@.len() as int),
                forall|q: int| 0 <= q < self.roots@.len() ==> {
                    let before = orig[q];
                    let after = #[trigger] self.roots@[q];
                    &&& after.0 == before.0
                    &&& sif_views(after.1.files_with_statements@) == live_files(
                        sif_views(before.1.files_with_statements@),
                        scan_events_of(before.1.tree),
                    )
                    &&& after.1.tree.pending() == Seq::<ScanEventView>::empty()
                    &&& all_scanned(after.1.tree.root_node)
                    &&& same_shape(before.1.tree.root_node, after.1.tree.root_node)
                    &&& after.1.tree.root_path == before.1.tree.root_path
                },
                forall|q: int, f: int|
                    0 <= q < orig.len() && 0 <= f < orig[q].1.files_with_statements@.len()
                        ==> (#[trigger] orig[q].1.files_with_statements@[f]).wf(),
            decreases pending@.len(),
        {
            let ghost before = pending@;
            let ghost done = self.roots@;
            let idx = self.roots.len();
            let (path, mut st) = pending.remove(0);
            assert(before[0] == orig[idx as int]);
            assert(pending@ =~= orig.subrange(idx + 1, n as int));
            let ghost ev = scan_events_of(st.tree);
            let events = st.tree.scan();
            let mut kept: Vec<StatementsInFile> = Vec::new();
            let mut files: Vec<StatementsInFile> = Vec::new();
            std::mem::swap(&mut files, &mut st.files_with_statements);
            let ghost orig_files = files@;
            assert(sif_views(kept@) =~= seq![]);
            while files.len() > 0
                invariant
                    event_views(events@) == ev,
                    forall|f: int| 0 <= f < kept@.len() ==> (#[trigger] kept@[f]).wf(),
                    forall|f: int| 0 <= f < files@.len() ==> (#[trigger] files@[f]).wf(),
                    sif_views(kept@) + live_files(sif_views(files@), ev) == live_files(sif_views(orig_files), ev),
                decreases files@.len(),
            {
                let ghost fb = files@;
                let ghost kb = kept@;
                let sif = files.remove(0);
                assert(files@ =~= fb.subrange(1, fb.len() as int));
                assert(fb[0] == sif);
                assert(sif_views(fb).subrange(1, fb.len() as int) =~= sif_views(files@));
                let mut deleted = false;
                let mut e: usize = 0;
                while e < events.len()
                    invariant
                        e <= events@.len(),
                        event_views(events@) == ev,
                        deleted == exists|q: int| 0 <= q < e && #[trigger] deletes_at(ev, q, sif.id),
                    decreases events@.len() - e,
                {
                    let ghost was = deleted;
                    match &events[e] {
                        ScanEvent::DeletedFile(_, id) => {
                            if id.0 == sif.id.0 {
                                deleted = true;
                                assert(deletes_at(ev, e as int, sif.id));
                            }
                        },
                        _ => {},
                    }
                    assert(deletes_at(ev, e as int, sif.id) ==> deleted);
                    e = e + 1;
                }
                assert(deleted == deletes_id(ev, sif.id));
                if !deleted {
                    kept.push(sif);
                    assert(sif_views(kept@) =~= sif_views(kb).push(sif_view(sif)));
                } else {
                    assert(sif_views(kept@) =~= sif_views(kb));
                }
                assert(sif_views(kept@) + live_files(sif_views(files@), ev) =~= sif_views(kb) + live_files(sif_views(fb), ev));
                assert forall|f: int| 0 <= f < files@.len() implies (#[trigger] files@[f]).wf() by {
                    assert(files@[f] == fb[f + 1]);
                }
            }
            assert(sif_views(kept@) =~= live_files(sif_views(orig_files), ev));
            proof {
                lemma_live_files(sif_views(orig_files), ev);
                assert(orig_files == orig[idx as int].1.files_with_statements@);
            }
            st.files_with_statements = kept;
            let ghost fv = found_views(found@);
            let mut e: usize = 0;
            assert(ev.subrange(0, 0) =~= Seq::<ScanEventView>::empty());
            assert(found_views(found@) =~= fv + tagged(idx as int, new_files_in(ev.subrange(0, 0))));
            while e < events.len()
                invariant
                    e <= events@.len(),
                    event_views(events@) == ev,
                    idx == self.roots@.len(),
                    found_views(found@) == fv + tagged(idx as int, new_files_in(ev.subrange(0, e as int))),
                decreases events@.len() - e,
            {
                let ghost fb = found@;
                let ghost sub = ev.subrange(0, e + 1);
                assert(sub.subrange(0, sub.len() - 1) =~= ev.subrange(0, e as int));
                assert(sub[sub.len() - 1] == ev[e as int]);
                match &events[e] {
                    ScanEvent::NewFile(p, info) => {
                        found.push((idx, p.clone(), *info));
                        assert(found_views(found@) =~= found_views(fb).push((idx, p@, *info)));
                        assert(tagged(idx as int, new_files_in(sub)) =~= tagged(idx as int, new_files_in(ev.subrange(0, e as int))).push((idx, p@, *info)));
                    },
                    _ => {
                        assert(new_files_in(sub) =~= new_files_in(ev.subrange(0, e as int)));
                    },
                }
                e = e + 1;
            }
            assert(ev.subrange(0, e as int) =~= ev);
            self.roots.push((path, st));
            assert(scan_found(orig, idx + 1) == scan_found(orig, idx as int) + tagged(idx as int, new_files_in(scan_events_of(orig[idx as int].1.tree))));
            assert forall|q: int, f: int|
                0 <= q < self.roots@.len() && 0 <= f < self.roots@[q].1.files_with_statements@.len()
                    implies (#[trigger] self.roots@[q].1.files_with_statements@[f]).wf() by {
                if q < done.len() {
                    assert(self.roots@[q] == done[q]);
                }
            }
            assert(roots_distinct(self.roots@)) by {
                assert forall|a: int, b: int| 0 <= a < b < self.roots@.len() implies self.roots@[a].0@ != self.roots@[b].0@ by {
                    if a < done.len() {
                        assert(self.roots@[a] == done[a]);
                    }
                    if b < done.len() {
                        assert(self.roots@[b] == done[b]);
                    }
                }
            }
            assert forall|q: int| 0 <= q < self.roots@.len() implies ids_unique(sif_views((#[trigger] self.roots@[q]).1.files_with_statements@)) by {
                if q < done.len() {
                    assert(self.roots@[q] == done[q]);
                }
            }
            assert forall|q: int| 0 <= q < self.roots@.len() implies {
                let before = orig[q];
                let after = #[trigger] self.roots@[q];
                &&& after.0 == before.0
                &&& sif_views(after.1.files_with_statements@) == live_files(
                    sif_views(before.1.files_with_statements@),
                    scan_events_of(before.1.tree),
                )
                &&& after.1.tree.pending() == Seq::<ScanEventView>::empty()
                &&& all_scanned(after.1.tree.root_node)
                &&& same_shape(before.1.tree.root_node, after.1.tree.root_node)
                &&& after.1.tree.root_path == before.1.tree.root_path
            } by {
                if q < done.len() {
                    assert(self.roots@[q] == done[q]);
                }
            }
        }
        found
    }

    /// Extracts the statements of each parsed source and files them under its root, in place of
    /// earlier statements of the same file. Gives, in order, an error for each file whose
    /// patterns could not be combined.
    pub fn extract_log_statements(&mut self, sources: &Vec<ParsedSource>, tracker: &ProgressTracker) -> (r: Vec<LogError>)
        requires
            old(self).wf(),
        ensures
            final(self).wf(),
            final(self).roots@.len() == old(self).roots@.len(),
            root_files(final(self).roots@) == filed_roots(root_files(old(self).roots@), sources@, sources@.len() as int),
            forall|q: int| 0 <= q < old(self).roots@.len() ==> (#[trigger] final(self).roots@[q]).0 == old(self).roots@[q].0
                && final(self).roots@[q].1.tree == old(self).roots@[q].1.tree,
            crate::code_source::failed_paths(r@) == parsed_failed(sources@, sources@.len() as int),
            forall|k: int| 0 <= k < r@.len() ==> (#[trigger] r@[k]) is TooManyStatements,
    {
        tracker.begin_step(String::from_str("Extracting log statements"));
        let guard = tracker.doing_work(sources.len() as u64, String::from_str("files"));
        let mut errors: Vec<LogError> = Vec::new();
        let mut k: usize = 0;
        assert(crate::code_source::failed_paths(errors@) =~= seq![]);
        while k < sources.len()
            invariant
                self.wf(),
                k <= sources@.len(),
                self.roots@.len() == old(self).roots@.len(),
                root_files(self.roots@) == filed_roots(root_files(old(self).roots@), sources@, k as int),
                forall|q: int| 0 <= q < old(self).roots@.len() ==> (#[trigger] self.roots@[q]).0 == old(self).roots@[q].0
                    && self.roots@[q].1.tree == old(self).roots@[q].1.tree,
                crate::code_source::failed_paths(errors@) == parsed_failed(sources@, k as int),
                forall|q: int| 0 <= q < errors@.len() ==> (#[trigger] errors@[q]) is TooManyStatements,
            decreases sources@.len() - k,
        {
            let src = &sources[k];
            let ghost eb = errors@;
            match extract_statements(&src.code, &src.results) {
                Ok(Some(sif)) => {
                    if src.root < self.roots.len() {
                        self.file_statements(src.root, sif);
                    }
                    assert(crate::code_source::failed_paths(errors@) =~= parsed_failed(sources@, k + 1));
                },
                Ok(None) => {
                    assert(crate::code_source::failed_paths(errors@) =~= parsed_failed(sources@, k + 1));
                },
                Err(e) => {
                    errors.push(e);
                    assert(crate::code_source::failed_paths(errors@) =~= crate::code_source::failed_paths(eb).push(
                        src.code.filename@,
                    ));
                },
            }
            guard.inc(1);
            k = k + 1;
        }
        let mut count: usize = 0;
        let mut i: usize = 0;
        while i < self.roots.len()
            invariant
                i <= self.roots@.len(),
            decreases self.roots@.len() - i,
        {
            let mut f: usize = 0;
            while f < self.roots[i].1.files_with_statements.len()
                invariant
                    i < self.roots@.len(),
                    f <= self.roots@[i as int].1.files_with_statements@.len(),
                decreases self.roots@[i as int].1.files_with_statements@.len() - f,
            {
                let n = self.roots[i].1.files_with_statements[f].log_statements.len();
                count = if count > usize::MAX - n { usize::MAX } else { count + n };
                f = f + 1;
            }
            i = i + 1;
        }
        let mut msg = crate::error::number_text(count);
        msg.append(" found");
        tracker.end_step(msg);
        errors
    }

    fn file_statements(&mut self, root: usize, sif: StatementsInFile)
        requires
            old(self).wf(),
            root < old(self).roots@.len(),
            sif.wf(),
        ensures
            final(self).wf(),
            final(self).roots@.len() == old(self).roots@.len(),
            root_files(final(self).roots@) == root_files(old(self).roots@).update(
                root as int,
                file_into(root_files(old(self).roots@)[root as int], sif_view(sif)),
            ),
            forall|q: int| 0 <= q < old(self).roots@.len() ==> (#[trigger] final(self).roots@[q]).0 == old(self).roots@[q].0
                && final(self).roots@[q].1.tree == old(self).roots@[q].1.tree,
    {
        let mut pending: Vec<(String, SourceTree)> = Vec::new();
        std::mem::swap(&mut pending, &mut self.roots);
        let ghost all = pending@;
        let mut rest = pending.split_off(root);
        let ghost rest0 = rest@;
        let (path, mut st) = rest.remove(0);
        let ghost r0 = all[root as int];
        assert(rest0[0] == r0);
        assert(r0.1 == st);
        let mut files: Vec<StatementsInFile> = Vec::new();
        std::mem::swap(&mut files, &mut st.files_with_statements);
        let ghost orig_files = files@;
        let mut kept: Vec<StatementsInFile> = Vec::new();
        assert(sif_views(kept@) =~= seq![]);
        while files.len() > 0
            invariant
                forall|f: int| 0 <= f < kept@.len() ==> (#[trigger] kept@[f]).wf(),
                forall|f: int| 0 <= f < files@.len() ==> (#[trigger] files@[f]).wf(),
                sif_views(kept@) + without_id(sif_views(files@), sif.id) == without_id(sif_views(orig_files), sif.id),
            decreases files@.len(),
        {
            let ghost fb = files@;
            let ghost kb = kept@;
            let x = files.remove(0);
            assert(fb[0] == x);
            assert(files@ =~= fb.subrange(1, fb.len() as int));
            assert(sif_views(fb).subrange(1, fb.len() as int) =~= sif_views(files@));
            if x.id.0 != sif.id.0 {
                kept.push(x);
                assert(sif_views(kept@) =~= sif_views(kb).push(sif_view(x)));
            } else {
                assert(x.id == sif.id);
            }
            assert(sif_views(kept@) + without_id(sif_views(files@), sif.id) =~= sif_views(kb) + without_id(sif_views(fb), sif.id));
            assert forall|f: int| 0 <= f < files@.len() implies (#[trigger] files@[f]).wf() by {
                assert(files@[f] == fb[f + 1]);
            }
        }
        assert(sif_views(kept@) =~= without_id(sif_views(orig_files), sif.id));
        proof {
            lemma_without_id(sif_views(orig_files), sif.id);
            assert(orig_files == all[root as int].1.files_with_statements@);
        }
        let ghost kv = kept@;
        kept.push(sif);
        assert(sif_views(kept@) =~= sif_views(kv).push(sif_view(sif)));
        st.files_with_statements = kept;
        pending.push((path, st));
        pending.append(&mut rest);
        self.roots = pending;
        assert(self.roots@ =~= all.update(root as int, (path, st)));
        assert(root_files(self.roots@) =~= root_files(all).update(root as int, file_into(root_files(all)[root as int], sif_view(sif))));
        assert forall|q: int, f: int|
            0 <= q < self.roots@.len() && 0 <= f < self.roots@[q].1.files_with_statements@.len()
                implies (#[trigger] self.roots@[q].1.files_with_statements@[f]).wf() by {
            if q != root {
                assert(self.roots@[q] == all[q]);
            }
        }
        assert(roots_distinct(self.roots@)) by {
            assert forall|a: int, b: int| 0 <= a < b < self.roots@.len() implies self.roots@[a].0@ != self.roots@[b].0@ by {
                assert(self.roots@[a].0 == all[a].0 && self.roots@[b].0 == all[b].0);
            }
        }
        assert forall|q: int| 0 <= q < self.roots@.len() implies ids_unique(sif_views((#[trigger] self.roots@[q]).1.files_with_statements@)) by {
            if q != root {
                assert(self.roots@[q] == all[q]);
            } else {
                let w = without_id(sif_views(orig_files), sif.id);
                let full = w.push(sif_view(sif));
                assert(sif_views(self.roots@[q].1.files_with_statements@) == full);
                assert forall|j: int, k: int| 0 <= j < k < full.len() implies full[j].0 != full[k].0 by {
                    if k == w.len() {
                        assert(w[j].0 != sif.id);
                    } else {
                        assert(full[j] == w[j] && full[k] == w[k]);
                    }
                }
            }
        }
    }

    /// Statement `k` of file `f` under root `i` exists, is considered for `log_ref` and matches
    /// its body.
    pub open spec fn considered(&self, log_ref: LogRef, i: int, f: int, k: int) -> bool {
        &&& 0 <= i < self.roots@.len()
        &&& 0 <= f < self.roots@[i].1.files_with_statements@.len()
        &&& 0 <= k < self.roots@[i].1.files_with_statements@[f].log_statements@.len()
        &&& candidate(self.roots@[i].1.files_with_statements@[f], hint_of(log_ref))
        &&& matches_body(self.roots@[i].1.files_with_statements@[f].log_statements@[k], body_of(log_ref))
    }

    pub open spec fn quality_at(&self, i: int, f: int, k: int) -> usize {
        self.roots@[i].1.files_with_statements@[f].log_statements@[k].quality
    }

    /// The statement that wrote `log_ref`. Where the line names its file, only the files whose
    /// path contains that name are considered, else all files. Of the considered statements that
    /// match the body, under all roots, the one of greatest quality is chosen (the first found
    /// among equals); with it come the values the body gives its placeholders and the resolved
    /// frames of the line's stack trace.
    pub fn match_log_statement(&self, log_ref: &LogRef) -> (r: Option<LogMapping>)
        requires
            self.wf(),
        ensures
            r matches Some(m) ==> exists|i: int, f: int, k: int| #[trigger] self.chosen(log_ref, m, i, f, k),
            r is None ==> forall|i: int, f: int, k: int| !#[trigger] self.considered(*log_ref, i, f, k),
    {
        let body = log_ref.body();
        let hint: Option<String> = match &log_ref.details {
            Some(d) => match (&d.file, &d.body) {
                (Some(f), Some(_)) => Some(f.clone()),
                _ => None,
            },
            None => None,
        };
        let ghost h = hint_of(*log_ref);
        assert(match hint { Some(x) => h == Some(x@), None => h is None });
        let mut best: Option<(usize, usize, usize)> = None;
        let mut bq: usize = 0;
        let mut i: usize = 0;
        while i < self.roots.len()
            invariant
                self.wf(),
                i <= self.roots@.len(),
                body@ == body_of(*log_ref),
                match hint { Some(x) => h == Some(x@), None => h is None },
                h == hint_of(*log_ref),
                best matches Some(b) ==> self.considered(*log_ref, b.0 as int, b.1 as int, b.2 as int)
                    && bq == self.quality_at(b.0 as int, b.1 as int, b.2 as int),
                forall|i2: int, f2: int, k2: int|
                    i2 < i && #[trigger] self.considered(*log_ref, i2, f2, k2) ==> best is Some
                        && self.quality_at(i2, f2, k2) <= bq,
            decreases self.roots@.len() - i,
        {
            let files = &self.roots[i].1.files_with_statements;
            let mut f: usize = 0;
            while f < files.len()
                invariant
                    self.wf(),
                    i < self.roots@.len(),
                    *files == self.roots@[i as int].1.files_with_statements,
                    f <= files@.len(),
                    body@ == body_of(*log_ref),
                    match hint { Some(x) => h == Some(x@), None => h is None },
                    h == hint_of(*log_ref),
                    best matches Some(b) ==> self.considered(*log_ref, b.0 as int, b.1 as int, b.2 as int)
                        && bq == self.quality_at(b.0 as int, b.1 as int, b.2 as int),
                    forall|i2: int, f2: int, k2: int|
                        (i2 < i || (i2 == i && f2 < f)) && #[trigger] self.considered(*log_ref, i2, f2, k2)
                            ==> best is Some && self.quality_at(i2, f2, k2) <= bq,
                decreases files@.len() - f,
            {
                let file = &files[f];
                assert(file.wf());
                let cand = match &hint {
                    Some(x) => contains_text(file.path.as_str(), x.as_str()),
                    None => true,
                };
                if cand {
                    let nstmts = file.log_statements.len();
                    assert(file.matcher@.len() == nstmts);
                    let idx = file.matcher.matches(body.as_str());
                    let mut t: usize = 0;
                    while t < idx.len()
                        invariant
                            self.wf(),
                            i < self.roots@.len(),
                            *files == self.roots@[i as int].1.files_with_statements,
                            f < files@.len(),
                            *file == files@[f as int],
                            file.wf(),
                            candidate(*file, h),
                            nstmts == file.log_statements@.len(),
                            file.matcher@.len() == nstmts,
                            t <= idx@.len(),
                            body@ == body_of(*log_ref),
                            h == hint_of(*log_ref),
                            forall|q: int| 0 <= q < idx@.len() ==> (#[trigger] idx@[q]) < file.matcher@.len(),
                            forall|q: int|
                                0 <= q < file.matcher@.len() ==> (idx@.contains(q as usize) <==> pattern_captures(
                                    #[trigger] file.matcher@[q],
                                    body@,
                                ) is Some),
                            best matches Some(b) ==> self.considered(*log_ref, b.0 as int, b.1 as int, b.2 as int)
                                && bq == self.quality_at(b.0 as int, b.1 as int, b.2 as int),
                            forall|i2: int, f2: int, k2: int|
                                (i2 < i || (i2 == i && f2 < f)) && #[trigger] self.considered(*log_ref, i2, f2, k2)
                                    ==> best is Some && self.quality_at(i2, f2, k2) <= bq,
                            forall|q: int| 0 <= q < t ==> best is Some && file.log_statements@[#[trigger] idx@[q] as int].quality <= bq,
                        decreases idx@.len() - t,
                    {
                        let k = idx[t];
                        assert(file.matcher@[k as int] == file.log_statements@[k as int].pattern@);
                        assert(idx@.contains(k));
                        assert(file.log_statements@[k as int].wf());
                        let q = file.log_statements[k].quality;
                        if best.is_none() || q > bq {
                            best = Some((i, f, k));
                            bq = q;
                        }
                        t = t + 1;
                    }
                    assert forall|i2: int, f2: int, k2: int|
                        (i2 < i || (i2 == i && f2 < f + 1)) && #[trigger] self.considered(*log_ref, i2, f2, k2)
                            implies best is Some && self.quality_at(i2, f2, k2) <= bq by {
                        if i2 == i && f2 == f {
                            assert(file.log_statements@[k2].wf());
                            assert(file.matcher@[k2] == file.log_statements@[k2].pattern@);
                            assert(idx@.contains(k2 as usize));
                            let q = choose|q: int| 0 <= q < idx@.len() && idx@[q] == k2 as usize;
                            assert(file.log_statements@[idx@[q] as int].quality <= bq);
                        }
                    }
                } else {
                    assert forall|i2: int, f2: int, k2: int|
                        (i2 < i || (i2 == i && f2 < f + 1)) && #[trigger] self.considered(*log_ref, i2, f2, k2)
                            implies best is Some && self.quality_at(i2, f2, k2) <= bq by {
                        if i2 == i && f2 == f {
                            assert(!candidate(*file, h));
                        }
                    }
                }
                f = f + 1;
            }
            i = i + 1;
        }
        match best {
            Some((bi, bf, bk)) => {
                let st = &self.roots[bi].1.files_with_statements[bf].log_statements[bk];
                let exception_trace = match &log_ref.details {
                    Some(LogDetails { trace: Some(trace), .. }) => trace.to_exception_trace(self),
                    _ => Vec::new(),
                };
                let variables = extract_variables_from(body.as_str(), st);
                let m = LogMapping { log_ref: log_ref.copy(), src_ref: Some(st.copy()), exception_trace, variables };
                assert(self.considered(*log_ref, bi as int, bf as int, bk as int));
                assert(m.log_ref == *log_ref);
                assert(pair_views(m.variables@) == variables_of(body_of(*log_ref), *st));
                assert(site_views(m.exception_trace@) == match log_ref.details {
                    Some(d) => match d.trace {
                        Some(t) => trace_sites(*self, t.language, t.content@),
                        None => seq![],
                    },
                    None => seq![],
                });
                assert forall|i2: int, f2: int, k2: int| #[trigger] self.considered(*log_ref, i2, f2, k2) implies self.quality_at(
                    i2,
                    f2,
                    k2,
                ) <= st.quality by {
                    assert(i2 < i);
                }
                assert(self.chosen(log_ref, m, bi as int, bf as int, bk as int));
                Some(m)
            },
            None => None,
        }
    }

    /// `m` reports statement `k` of file `f` under root `i` for `log_ref`: it is considered and
    /// matches the body, and no considered statement under any root that matches has greater
    /// quality. `m` holds the log line, a copy of the statement, the values it binds in the body,
    /// and the call sites of the line's stack trace.
    pub open spec fn chosen(&self, log_ref: &LogRef, m: LogMapping, i: int, f: int, k: int) -> bool {
        let st = self.roots@[i].1.files_with_statements@[f].log_statements@[k];
        &&& self.considered(*log_ref, i, f, k)
        &&& m.log_ref == *log_ref
        &&& m.src_ref matches Some(s) && s.source_path == st.source_path && s.language == st.language
            && s.line_no == st.line_no && s.end_line_no == st.end_line_no && s.column == st.column
            && s.name == st.name && s.text == st.text && s.quality == st.quality && s.matcher@ == st.matcher@
            && s.pattern == st.pattern && arg_views(s.args@) == arg_views(st.args@) && s.vars@ == st.vars@
        &&& pair_views(m.variables@) == variables_of(body_of(*log_ref), st)
        &&& site_views(m.exception_trace@) == match log_ref.details {
            Some(d) => match d.trace {
                Some(t) => trace_sites(*self, t.language, t.content@),
                None => seq![],
            },
            None => seq![],
        }
        &&& forall|i2: int, f2: int, k2: int|
            #[trigger] self.considered(*log_ref, i2, f2, k2) ==> self.quality_at(i2, f2, k2) <= st.quality
    }

    /// The file `files[f]` has the identifier of the hit `tf[hk]`.
    pub open spec fn id_match(tf: Seq<(Seq<char>, SourceFileInfo)>, hk: int, files: Seq<StatementsInFile>, f: int) -> bool {
        tf[hk].1.id == files[f].id
    }

    /// File `f` under root `i` holds the statements of a file that `path` leads to.
    pub open spec fn leads_to(&self, path: Seq<char>, i: int, f: int) -> bool {
        &&& 0 <= i < self.roots@.len()
        &&& 0 <= f < self.roots@[i].1.files_with_statements@.len()
        &&& exists|h: int|
            0 <= h < crate::source_hier::tree_find(self.roots@[i].1.tree, path).len()
                && #[trigger] crate::source_hier::tree_find(self.roots@[i].1.tree, path)[h].1.id
                == self.roots@[i].1.files_with_statements@[f].id
    }

    /// The files with statements, as (root, file) positions, that `path` leads to under each
    /// root: each such file is listed, and nothing else.
    pub fn find_source_file_statements(&self, path: &str) -> (r: Vec<(usize, usize)>)
        ensures
            forall|j: int| 0 <= j < r@.len() ==> self.leads_to(path@, (#[trigger] r@[j]).0 as int, r@[j].1 as int),
            forall|i: int, f: int| #[trigger] self.leads_to(path@, i, f) ==> r@.contains((i as usize, f as usize)),
    {
        let mut out: Vec<(usize, usize)> = Vec::new();
        let mut i: usize = 0;
        while i < self.roots.len()
            invariant
                i <= self.roots@.len(),
                forall|j: int| 0 <= j < out@.len() ==> self.leads_to(path@, (#[trigger] out@[j]).0 as int, out@[j].1 as int),
                forall|i2: int, f2: int| i2 < i && #[trigger] self.leads_to(path@, i2, f2) ==> out@.contains((i2 as usize, f2 as usize)),
            decreases self.roots@.len() - i,
        {
            let root = &self.roots[i].1;
            let hits = root.tree.find_file(path);
            let ghost tf = crate::source_hier::tree_find(root.tree, path@);
            assert(crate::source_hier::hit_views(hits@) == tf);
            let mut h: usize = 0;
            while h < hits.len()
                invariant
                    i < self.roots@.len(),
                    *root == self.roots@[i as int].1,
                    tf == crate::source_hier::tree_find(root.tree, path@),
                    crate::source_hier::hit_views(hits@) == tf,
                    h <= hits@.len(),
                    forall|j: int| 0 <= j < out@.len() ==> self.leads_to(path@, (#[trigger] out@[j]).0 as int, out@[j].1 as int),
                    forall|i2: int, f2: int| i2 < i && #[trigger] self.leads_to(path@, i2, f2) ==> out@.contains((i2 as usize, f2 as usize)),
                    forall|hk: int, f2: int|
                        0 <= hk < h && 0 <= f2 < root.files_with_statements@.len() && #[trigger] Self::id_match(
                            tf,
                            hk,
                            root.files_with_statements@,
                            f2,
                        ) ==> out@.contains((i, f2 as usize)),
                decreases hits@.len() - h,
            {
                assert(tf[h as int] == (hits@[h as int].0@, hits@[h as int].1));
                let mut f: usize = 0;
                while f < root.files_with_statements.len()
                    invariant
                        i < self.roots@.len(),
                        *root == self.roots@[i as int].1,
                        tf == crate::source_hier::tree_find(root.tree, path@),
                        crate::source_hier::hit_views(hits@) == tf,
                        h < hits@.len(),
                        tf[h as int].1 == hits@[h as int].1,
                        f <= root.files_with_statements@.len(),
                        forall|j: int| 0 <= j < out@.len() ==> self.leads_to(path@, (#[trigger] out@[j]).0 as int, out@[j].1 as int),
                        forall|i2: int, f2: int| i2 < i && #[trigger] self.leads_to(path@, i2, f2) ==> out@.contains((i2 as usize, f2 as usize)),
                        forall|hk: int, f2: int|
                            0 <= hk < h && 0 <= f2 < root.files_with_statements@.len() && #[trigger] Self::id_match(
                                tf,
                                hk,
                                root.files_with_statements@,
                                f2,
                            ) ==> out@.contains((i, f2 as usize)),
                        forall|f2: int|
                            0 <= f2 < f && #[trigger] Self::id_match(tf, h as int, root.files_with_statements@, f2) ==> out@.contains(
                                (i, f2 as usize),
                            ),
                    decreases root.files_with_statements@.len() - f,
                {
                    let ghost ob = out@;
                    if root.files_with_statements[f].id.0 == hits[h].1.id.0 {
                        out.push((i, f));
                        assert(self.leads_to(path@, i as int, f as int)) by {
                            assert(tf[h as int].1.id == self.roots@[i as int].1.files_with_statements@[f as int].id);
                        }
                        assert forall|x: (usize, usize)| ob.contains(x) implies out@.contains(x) by {
                            let q = choose|q: int| 0 <= q < ob.len() && ob[q] == x;
                            assert(out@[q] == x);
                        }
                        assert(out@[ob.len() as int] == (i, f));
                    }
                    f = f + 1;
                }
                h = h + 1;
            }
            proof {
                assert forall|i2: int, f2: int| i2 < i + 1 && #[trigger] self.leads_to(path@, i2, f2) implies out@.contains(
                    (i2 as usize, f2 as usize),
                ) by {
                    if i2 == i {
                        let hk = choose|hk: int|
                            0 <= hk < tf.len() && #[trigger] tf[hk].1.id == self.roots@[i as int].1.files_with_statements@[f2].id;
                        assert(Self::id_match(tf, hk, root.files_with_statements@, f2));
                    }
                }
            }
            i = i + 1;
        }
        out
    }
}

/// The statement among `src_refs` with the greatest quality that matches the body of
/// `log_ref`, the first among equals; none when none matches.
pub fn link_to_source(log_ref: &LogRef, src_refs: &Vec<SourceRef>) -> (r: Option<usize>)
    ensures
        r matches Some(i) ==> i < src_refs@.len() && matches_body(src_refs@[i as int], body_of(*log_ref))
            && (forall|j: int| 0 <= j < src_refs@.len() && matches_body(#[trigger] src_refs@[j], body_of(*log_ref))
                ==> src_refs@[j].quality <= src_refs@[i as int].quality)
            && (forall|j: int| 0 <= j < i && matches_body(#[trigger] src_refs@[j], body_of(*log_ref))
                ==> src_refs@[j].quality < src_refs@[i as int].quality),
        r is None ==> forall|j: int| 0 <= j < src_refs@.len() ==> !matches_body(#[trigger] src_refs@[j], body_of(*log_ref)),
{
    let body = log_ref.body();
    let mut best: Option<usize> = None;
    let mut k: usize = 0;
    while k < src_refs.len()
        invariant
            k <= src_refs@.len(),
            body@ == body_of(*log_ref),
            best matches Some(b) ==> b < k && matches_body(src_refs@[b as int], body@)
                && (forall|j: int| 0 <= j < k && matches_body(#[trigger] src_refs@[j], body@)
                    ==> src_refs@[j].quality <= src_refs@[b as int].quality)
                && (forall|j: int| 0 <= j < b && matches_body(#[trigger] src_refs@[j], body@)
                    ==> src_refs@[j].quality < src_refs@[b as int].quality),
            best is None ==> forall|j: int| 0 <= j < k ==> !matches_body(#[trigger] src_refs@[j], body@),
        decreases src_refs@.len() - k,
    {
        if src_refs[k].captures(body.as_str()).is_some() {
            let better = match best {
                Some(b) => src_refs[k].quality > src_refs[b].quality,
                None => true,
            };
            if better {
                best = Some(k);
            }
        }
        k = k + 1;
    }
    best
}

/// Statement `s` is at the file and line that the log format finds in `body` (no file: any
/// path; no line, or one that is not a number: line 0).
pub open spec fn lookup_hit(s: SourceRef, f: LogFormat, body: Seq<char>) -> bool {
    let file = match f.field(body, "file"@) {
        Some(x) => x,
        None => seq![],
    };
    let line: nat = match f.field(body, "line"@) {
        Some(l) => match crate::log_ref::parse_usize(l) {
            Some(n) => n,
            None => 0,
        },
        None => 0,
    };
    contains_seq(s.source_path@, file) && s.line_no == line
}

/// The first statement among `src_refs` whose path contains the file that the log format
/// finds in the body of `log_ref` and whose line is the line it finds (no file: any path; no
/// line, or one that is not a number: line 0). None when the format does not match.
pub fn lookup_source(log_ref: &LogRef, log_format: &LogFormat, src_refs: &Vec<SourceRef>) -> (r: Option<usize>)
    requires
        log_format.wf(),
    ensures
        pattern_captures(log_format.regex@, body_of(*log_ref)) is None ==> r is None,
        r matches Some(i) ==> i < src_refs@.len() && lookup_hit(
            src_refs@[i as int],
            *log_format,
            body_of(*log_ref),
        ) && forall|j: int| 0 <= j < i ==> !lookup_hit(#[trigger] src_refs@[j], *log_format, body_of(*log_ref)),
        r is None && pattern_captures(log_format.regex@, body_of(*log_ref)) is Some ==> forall|j: int|
            0 <= j < src_refs@.len() ==> !lookup_hit(#[trigger] src_refs@[j], *log_format, body_of(*log_ref)),
{
    let body = log_ref.body();
    match log_format.captures(body.as_str()) {
        None => None,
        Some(fields) => {
            let file_name = match &fields.file {
                Some(f) => f.clone(),
                None => String::new(),
            };
            let line_no: usize = match &fields.line {
                Some(l) => match parse_number(l.as_str()) {
                    Some(n) => n,
                    None => 0,
                },
                None => 0,
            };
            let ghost fv = match log_format.field(body_of(*log_ref), "file"@) {
                Some(x) => x,
                None => seq![],
            };
            let ghost lv: nat = match log_format.field(body_of(*log_ref), "line"@) {
                Some(l) => match crate::log_ref::parse_usize(l) {
                    Some(n) => n,
                    None => 0,
                },
                None => 0,
            };
            assert(file_name@ == fv);
            assert(line_no as nat == lv);
            let mut k: usize = 0;
            while k < src_refs.len()
                invariant
                    k <= src_refs@.len(),
                    pattern_captures(log_format.regex@, body_of(*log_ref)) is Some,
                    file_name@ == fv,
                    line_no as nat == lv,
                    fv == match log_format.field(body_of(*log_ref), "file"@) {
                        Some(x) => x,
                        None => seq![],
                    },
                    lv == match log_format.field(body_of(*log_ref), "line"@) {
                        Some(l) => match crate::log_ref::parse_usize(l) {
                            Some(n) => n,
                            None => 0,
                        },
                        None => 0nat,
                    },
                    forall|j: int| 0 <= j < k ==> !lookup_hit(#[trigger] src_refs@[j], *log_format, body_of(*log_ref)),
                decreases src_refs@.len() - k,
            {
                if contains_text(src_refs[k].source_path.as_str(), file_name.as_str()) && src_refs[k].line_no == line_no {
                    return Some(k);
                }
                k = k + 1;
            }
            None
        },
    }
}

/// Of two statements that are both considered for a log line and both match its body, under
/// any roots, the one of lower quality is not what the correlator reports: what it reports has
/// at least the higher quality.
pub proof fn lemma_higher_quality_preferred(
    m: LogMatcher,
    log_ref: LogRef,
    mapping: LogMapping,
    chosen: (int, int, int),
    lo: (int, int, int),
    hi: (int, int, int),
)
    requires
        m.chosen(&log_ref, mapping, chosen.0, chosen.1, chosen.2),
        m.considered(log_ref, lo.0, lo.1, lo.2),
        m.considered(log_ref, hi.0, hi.1, hi.2),
        m.quality_at(lo.0, lo.1, lo.2) < m.quality_at(hi.0, hi.1, hi.2),
    ensures
        mapping.src_ref matches Some(s) && s.quality >= m.quality_at(hi.0, hi.1, hi.2) && s.quality > m.quality_at(
            lo.0,
            lo.1,
            lo.2,
        ),
{
    assert(m.considered(log_ref, hi.0, hi.1, hi.2));
}

/// Where a log line names its file, the statement reported for it lies in a file whose path
/// contains that name.
pub proof fn lemma_hint_respected(m: LogMatcher, log_ref: LogRef, mapping: LogMapping, i: int, f: int, k: int)
    requires
        m.wf(),
        m.chosen(&log_ref, mapping, i, f, k),
        hint_of(log_ref) is Some,
    ensures
        mapping.src_ref matches Some(s) && contains_seq(s.source_path@, hint_of(log_ref)->0),
{
    assert(m.roots@[i].1.files_with_statements@[f].wf());
}

} // verus!
