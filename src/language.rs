//! The languages whose logging statements are recognized, and what each one looks like.
use vstd::prelude::*;
use crate::text::{chars_of, str_equals};

verus! {

/// A programming language whose source files can be searched for logging statements.
#[derive(Clone, Copy, Debug, PartialEq, Eq, Structural)]
pub enum SourceLanguage {
    Rust,
    Java,
    Cpp,
    Python,
}

/// The language that a file extension stands for.
pub open spec fn language_of_extension(ext: Seq<char>) -> Option<SourceLanguage> {
    if ext == "rs"@ {
        Some(SourceLanguage::Rust)
    } else if ext == "java"@ {
        Some(SourceLanguage::Java)
    } else if ext == "h"@ || ext == "hh"@ || ext == "hpp"@ || ext == "hxx"@ || ext == "tpp"@
        || ext == "cc"@ || ext == "cpp"@ || ext == "cxx"@ {
        Some(SourceLanguage::Cpp)
    } else if ext == "py"@ {
        Some(SourceLanguage::Python)
    } else {
        None
    }
}

/// Position just after the last `/` of `p` (0 when there is none).
pub open spec fn name_start(p: Seq<char>, i: int) -> int
    decreases i,
{
    if i <= 0 {
        0
    } else if p[i - 1] == '/' {
        i
    } else {
        name_start(p, i - 1)
    }
}

/// Position of the last `.` of `name` at or after `lo` and before `i`, if any.
pub open spec fn last_dot(name: Seq<char>, lo: int, i: int) -> Option<int>
    decreases i - lo,
{
    if i <= lo {
        None
    } else if name[i - 1] == '.' {
        Some(i - 1)
    } else {
        last_dot(name, lo, i - 1)
    }
}

/// The extension of the file name that ends `p`: what follows its last dot, where that dot
/// is not the name's first character.
pub open spec fn extension_of(p: Seq<char>) -> Option<Seq<char>> {
    let start = name_start(p, p.len() as int);
    match last_dot(p, start, p.len() as int) {
        Some(d) => if d > start {
            Some(p.subrange(d + 1, p.len() as int))
        } else {
            None
        },
        None => None,
    }
}

pub open spec fn language_of_path(p: Seq<char>) -> Option<SourceLanguage> {
    match extension_of(p) {
        Some(e) => language_of_extension(e),
        None => None,
    }
}

/// The identifiers that name a logger or its level, dropped from a call's arguments.
pub open spec fn logger_identifiers(lang: SourceLanguage) -> Seq<Seq<char>> {
    match lang {
        SourceLanguage::Rust => seq!["debug"@, "info"@, "warn"@],
        SourceLanguage::Java => seq![
            "logger"@,
            "log"@,
            "fine"@,
            "debug"@,
            "info"@,
            "warn"@,
            "trace"@,
        ],
        SourceLanguage::Cpp => seq!["debug"@, "info"@, "warn"@, "trace"@],
        SourceLanguage::Python => seq!["debug"@, "info"@, "warn"@, "trace"@],
    }
}

/// What `str::to_lowercase` makes of a string.
pub uninterp spec fn lower_of(s: Seq<char>) -> Seq<char>;

/// Relies on `str::to_lowercase`: the result depends on the characters of `s` alone.
#[verifier::external_body]
fn lowercase(s: &str) -> (r: String)
    ensures
        r@ == lower_of(s@),
{
    s.to_lowercase()
}

fn identifier_list(lang: SourceLanguage) -> (r: Vec<&'static str>)
    ensures
        r@.map_values(|s: &str| s@) == logger_identifiers(lang),
{
    let r = match lang {
        SourceLanguage::Rust => vec!["debug", "info", "warn"],
        SourceLanguage::Java => vec!["logger", "log", "fine", "debug", "info", "warn", "trace"],
        SourceLanguage::Cpp => vec!["debug", "info", "warn", "trace"],
        SourceLanguage::Python => vec!["debug", "info", "warn", "trace"],
    };
    assert(r@.map_values(|s: &str| s@) =~= logger_identifiers(lang));
    r
}

impl SourceLanguage {
    pub open spec fn name(self) -> Seq<char> {
        match self {
            SourceLanguage::Rust => "Rust"@,
            SourceLanguage::Java => "Java"@,
            SourceLanguage::Cpp => "C++"@,
            SourceLanguage::Python => "Python"@,
        }
    }

    /// The language's display name.
    pub fn as_str(&self) -> (r: &'static str)
        ensures
            r@ == self.name(),
    {
        match self {
            SourceLanguage::Rust => "Rust",
            SourceLanguage::Java => "Java",
            SourceLanguage::Cpp => "C++",
            SourceLanguage::Python => "Python",
        }
    }

    /// The language of files with extension `ext`.
    pub fn from_extension(ext: &str) -> (r: Option<SourceLanguage>)
        ensures
            r == language_of_extension(ext@),
    {
        if str_equals(ext, "rs") {
            Some(SourceLanguage::Rust)
        } else if str_equals(ext, "java") {
            Some(SourceLanguage::Java)
        } else if str_equals(ext, "h") || str_equals(ext, "hh") || str_equals(ext, "hpp")
            || str_equals(ext, "hxx") || str_equals(ext, "tpp") || str_equals(ext, "cc")
            || str_equals(ext, "cpp") || str_equals(ext, "cxx") {
            Some(SourceLanguage::Cpp)
        } else if str_equals(ext, "py") {
            Some(SourceLanguage::Python)
        } else {
            None
        }
    }

    /// The language of the file at `path`, judged by its extension.
    pub fn from_path(path: &str) -> (r: Option<SourceLanguage>)
        ensures
            r == language_of_path(path@),
    {
        let p = chars_of(path);
        let n = p.len();
        let mut start: usize = n;
        while start > 0 && p[start - 1] != '/'
            invariant
                start <= n == p@.len(),
                name_start(p@, n as int) == name_start(p@, start as int),
            decreases start,
        {
            start = start - 1;
        }
        let mut i: usize = n;
        while i > start && p[i - 1] != '.'
            invariant
                start <= i <= n == p@.len(),
                last_dot(p@, start as int, n as int) == last_dot(p@, start as int, i as int),
            decreases i,
        {
            i = i - 1;
        }
        if i > 0 && i - 1 > start {
            let mut ext: Vec<char> = Vec::new();
            let mut k: usize = i;
            while k < n
                invariant
                    i <= k <= n == p@.len(),
                    ext@ == p@.subrange(i as int, k as int),
                decreases n - k,
            {
                ext.push(p[k]);
                k = k + 1;
                assert(ext@ =~= p@.subrange(i as int, k as int));
            }
            let e = crate::text::string_of(ext.as_slice());
            Self::from_extension(e.as_str())
        } else {
            None
        }
    }

    /// Whether `text`, the source of a call argument, names the logger or a level rather than
    /// a value.
    pub fn is_logger_identifier(&self, text: &str) -> (r: bool)
        ensures
            r == logger_identifiers(*self).contains(lower_of(text@)),
    {
        let lower = lowercase(text);
        let idents = identifier_list(*self);
        let ghost views = idents@.map_values(|s: &str| s@);
        let mut k: usize = 0;
        while k < idents.len()
            invariant
                k <= idents@.len(),
                views == logger_identifiers(*self),
                lower@ == lower_of(text@),
                views == idents@.map_values(|s: &str| s@),
                forall|j: int| 0 <= j < k ==> views[j] != lower@,
            decreases idents@.len() - k,
        {
            if str_equals(idents[k], lower.as_str()) {
                assert(views[k as int] == lower@);
                assert(logger_identifiers(*self)[k as int] == lower_of(text@));
                return true;
            }
            k = k + 1;
        }
        false
    }

    /// The structural query that finds this language's logging calls.
    pub fn get_query(&self) -> &'static str {
        match self {
            SourceLanguage::Rust => "
                    (macro_invocation macro: (_) @macro-name
                        (token_tree .
                            (string_literal) @log
                        )
                        (#not-any-of? @macro-name \"format\" \"vec\")
                    )
                ",
            SourceLanguage::Java => "
                    (method_invocation
                        object: (identifier) @object-name
                        name: (identifier) @method-name
                        arguments: [
                            (argument_list (template_expression
                                template_argument: (string_literal) @arguments))
                            (argument_list . (string_literal) @arguments)
                        ]
                        (#match? @object-name \"log(ger)?|LOG(GER)?\")
                        (#match? @method-name \"fine|debug|info|warn|trace|error\")
                    )
                ",
            SourceLanguage::Cpp => "
                    (
                        (compound_statement
                            (expression_statement
                                (call_expression
                                    function: (_) @fname
                                    arguments: (argument_list (string_literal) @arguments)
                                )
                            )
                        )
                        (#not-match? @fname \"snprintf|sprintf\")
                    )
                ",
            SourceLanguage::Python => "
                (
                    (expression_statement
                      (call
                        function: (_) @func
                        arguments: (argument_list .
                          (string) @args
                        )
                      )
                    )
                )
                ",
        }
    }
}

} // verus!
