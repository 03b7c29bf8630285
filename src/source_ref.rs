//! Recognized logging statements, and the values that a log line binds to their placeholders.
use vstd::prelude::*;
use vstd::string::*;
use crate::format::{arg_views, ArgView, FormatArgument};
use crate::language::SourceLanguage;
use crate::pattern::{pattern_captures, span_views, spans_within, Pattern};

verus! {

/// One stack frame that was resolved to a place in the source.
#[derive(Clone, Debug, PartialEq, Eq)]
pub struct CallSite {
    pub name: String,
    pub source_path: String,
    pub language: SourceLanguage,
    pub line_no: usize,
}

/// A logging statement found in a source file.
#[derive(Clone, Debug)]
pub struct SourceRef {
    pub source_path: String,
    pub language: SourceLanguage,
    pub line_no: usize,
    pub end_line_no: usize,
    pub column: usize,
    pub name: String,
    pub text: String,
    pub quality: usize,
    pub matcher: Pattern,
    pub pattern: String,
    pub args: Vec<FormatArgument>,
    pub vars: Vec<String>,
}

impl SourceRef {
    /// The matcher was compiled from the pattern, and the text has literal characters.
    pub open spec fn wf(&self) -> bool {
        self.matcher@ == self.pattern@ && self.quality >= 1
    }

    /// The groups that the statement's matcher finds in `line`.
    pub fn captures(&self, line: &str) -> (r: Option<Vec<Option<(usize, usize)>>>)
        ensures
            r is None <==> pattern_captures(self.matcher@, line@) is None,
            r matches Some(g) ==> span_views(g@) == pattern_captures(self.matcher@, line@)->0,
            r matches Some(g) ==> spans_within(span_views(g@), line@.len() as int),
    {
        self.matcher.captures(line)
    }

    /// Whether two statements are the same: same place, text, name and arguments.
    pub fn same_statement(&self, other: &SourceRef) -> (r: bool)
        ensures
            r == (self.line_no == other.line_no && self.column == other.column && self.name@
                == other.name@ && self.text@ == other.text@ && var_views(self.vars@) == var_views(
                other.vars@,
            )),
    {
        if self.line_no != other.line_no || self.column != other.column {
            return false;
        }
        if !(self.name == other.name) || !(self.text == other.text) {
            return false;
        }
        if self.vars.len() != other.vars.len() {
            assert(var_views(self.vars@).len() != var_views(other.vars@).len());
            return false;
        }
        let mut k: usize = 0;
        while k < self.vars.len()
            invariant
                k <= self.vars@.len() == other.vars@.len(),
                forall|q: int| 0 <= q < k ==> self.vars@[q]@ == other.vars@[q]@,
            decreases self.vars@.len() - k,
        {
            if !(self.vars[k] == other.vars[k]) {
                assert(var_views(self.vars@)[k as int] != var_views(other.vars@)[k as int]);
                return false;
            }
            k = k + 1;
        }
        assert(var_views(self.vars@) =~= var_views(other.vars@));
        true
    }
}

pub open spec fn var_views(v: Seq<String>) -> Seq<Seq<char>> {
    v.map_values(|s: String| s@)
}

/// An expression of a logging call and the value it had, as a log line shows it.
#[derive(Clone, Debug, PartialEq, Eq)]
pub struct VariablePair {
    pub expr: String,
    pub value: String,
}

pub open spec fn pair_views(v: Seq<VariablePair>) -> Seq<(Seq<char>, Seq<char>)> {
    v.map_values(|p: VariablePair| (p.expr@, p.value@))
}

pub open spec fn unknown_text() -> Seq<char> {
    seq!['<', 'u', 'n', 'k', 'n', 'o', 'w', 'n', '>']
}

/// The label of a placeholder's value, and how many anonymous placeholders were used after it:
/// a name labels itself, an index picks that argument, and an anonymous placeholder takes the
/// next argument in turn.
pub open spec fn label_of(a: ArgView, vars: Seq<Seq<char>>, used: nat) -> (Seq<char>, nat) {
    match a {
        ArgView::Named(n) => (n, used),
        ArgView::Positional(p) => (if p < vars.len() {
            vars[p as int]
        } else {
            unknown_text()
        }, used),
        ArgView::Placeholder => (if used < vars.len() {
            vars[used as int]
        } else {
            unknown_text()
        }, used + 1),
    }
}

/// The labeled values of groups `k + 1 ..` against arguments `k ..`, with `used` anonymous
/// placeholders consumed so far.
pub open spec fn pairs_from(
    groups: Seq<Option<(int, int)>>,
    text: Seq<char>,
    args: Seq<ArgView>,
    vars: Seq<Seq<char>>,
    k: nat,
    used: nat,
) -> Seq<(Seq<char>, Seq<char>)>
    decreases args.len() - k,
{
    if k < args.len() && k + 1 < groups.len() {
        let (label, next) = label_of(args[k as int], vars, used);
        let value = match groups[(k + 1) as int] {
            Some(r) => text.subrange(r.0, r.1),
            None => seq![],
        };
        seq![(label, value)] + pairs_from(groups, text, args, vars, k + 1, next)
    } else {
        seq![]
    }
}

/// The variables that the statement `s` binds in the log text `text`.
pub open spec fn variables_of(text: Seq<char>, s: SourceRef) -> Seq<(Seq<char>, Seq<char>)> {
    match pattern_captures(s.matcher@, text) {
        Some(g) => pairs_from(g, text, arg_views(s.args@), var_views(s.vars@), 0, 0),
        None => seq![],
    }
}

fn copy_range(cs: &Vec<char>, a: usize, b: usize) -> (r: String)
    requires
        a <= b <= cs@.len(),
    ensures
        r@ == cs@.subrange(a as int, b as int),
{
    let mut out: Vec<char> = Vec::new();
    let mut q: usize = a;
    while q < b
        invariant
            a <= q <= b <= cs@.len(),
            out@ == cs@.subrange(a as int, q as int),
        decreases b - q,
    {
        out.push(cs[q]);
        q = q + 1;
        assert(out@ =~= cs@.subrange(a as int, q as int));
    }
    crate::text::string_of(out.as_slice())
}

/// The values that the log text `text` gives to the placeholders of `src_ref`, each labeled
/// by its argument: none when the statement does not match.
pub fn extract_variables_from(text: &str, src_ref: &SourceRef) -> (r: Vec<VariablePair>)
    ensures
        pair_views(r@) == variables_of(text@, *src_ref),
{
    let mut out: Vec<VariablePair> = Vec::new();
    let groups = match src_ref.captures(text) {
        Some(g) => g,
        None => {
            assert(pair_views(out@) =~= variables_of(text@, *src_ref));
            return out;
        },
    };
    let cs = crate::text::chars_of(text);
    let ghost gv = span_views(groups@);
    let ghost av = arg_views(src_ref.args@);
    let ghost vv = var_views(src_ref.vars@);
    let mut used: usize = 0;
    let mut k: usize = 0;
    while k < src_ref.args.len() && k + 1 < groups.len()
        invariant
            k <= src_ref.args@.len(),
            k < groups@.len() || k == 0,
            used <= k,
            gv == span_views(groups@),
            gv == pattern_captures(src_ref.matcher@, text@)->0,
            pattern_captures(src_ref.matcher@, text@) is Some,
            spans_within(gv, cs@.len() as int),
            cs@ == text@,
            av == arg_views(src_ref.args@),
            vv == var_views(src_ref.vars@),
            pair_views(out@) + pairs_from(gv, text@, av, vv, k as nat, used as nat) == pairs_from(
                gv,
                text@,
                av,
                vv,
                0,
                0,
            ),
        decreases src_ref.args@.len() - k,
    {
        let ghost before = pair_views(out@);
        let (expr, next): (String, usize) = match &src_ref.args[k] {
            FormatArgument::Named(n) => (n.clone(), used),
            FormatArgument::Positional(p) => {
                if *p < src_ref.vars.len() {
                    (src_ref.vars[*p].clone(), used)
                } else {
                    proof {
                        reveal_strlit("<unknown>");
                    }
                    (String::from_str("<unknown>"), used)
                }
            },
            FormatArgument::Placeholder => {
                let e = if used < src_ref.vars.len() {
                    src_ref.vars[used].clone()
                } else {
                    proof {
                        reveal_strlit("<unknown>");
                    }
                    String::from_str("<unknown>")
                };
                (e, used + 1)
            },
        };
        assert(label_of(av[k as int], vv, used as nat) == (expr@, next as nat)) by {
            assert(av[k as int] == src_ref.args@[k as int]@);
            assert("<unknown>"@ =~= unknown_text()) by {
                reveal_strlit("<unknown>");
            }
        }
        let value = match groups[k + 1] {
            Some((a, b)) => {
                assert(gv[k + 1] == Some((a as int, b as int)));
                copy_range(&cs, a, b)
            },
            None => String::new(),
        };
        out.push(VariablePair { expr, value });
        assert(pair_views(out@) =~= before.push((expr@, value@)));
        assert(pairs_from(gv, text@, av, vv, k as nat, used as nat) =~= seq![(expr@, value@)]
            + pairs_from(gv, text@, av, vv, (k + 1) as nat, next as nat));
        used = next;
        k = k + 1;
    }
    assert(pairs_from(gv, text@, av, vv, k as nat, used as nat) =~= seq![]);
    assert(pair_views(out@) =~= variables_of(text@, *src_ref));
    out
}

} // verus!
