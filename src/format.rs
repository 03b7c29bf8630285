//! Placeholders in format strings, and the matcher synthesized from a format string.
use vstd::prelude::*;
use crate::language::SourceLanguage;
use crate::text::{is_ascii_alpha, is_ascii_digit, is_space, is_space_char};

verus! {

/// How the value captured for one placeholder is labeled.
#[derive(Clone, Debug, PartialEq, Eq)]
pub enum FormatArgument {
    /// The placeholder names the value (`{name}`).
    Named(String),
    /// The placeholder refers to the call's argument at this index (`{2}`).
    Positional(usize),
    /// The placeholder takes the next call argument in turn (`{}`, `%d`).
    Placeholder,
}

/// The mathematical value of a [`FormatArgument`].
pub enum ArgView {
    Named(Seq<char>),
    Positional(nat),
    Placeholder,
}

impl View for FormatArgument {
    type V = ArgView;

    open spec fn view(&self) -> ArgView {
        match self {
            FormatArgument::Named(s) => ArgView::Named(s@),
            FormatArgument::Positional(n) => ArgView::Positional(*n as nat),
            FormatArgument::Placeholder => ArgView::Placeholder,
        }
    }
}

pub open spec fn arg_views(v: Seq<FormatArgument>) -> Seq<ArgView> {
    v.map_values(|a: FormatArgument| a@)
}

/// The kinds of character run that the placeholder syntaxes are made of.
#[derive(Clone, Copy)]
pub enum CharClass {
    /// `[a-zA-Z0-9_.]`, the rest of a name
    IdentContinue,
    /// `[0-9]`
    Digit,
    /// white space
    Space,
    /// `[-+ #0]`, the flags of a printf conversion
    Flag,
    /// `[hlLzjt]`, the length modifier of a printf conversion
    Length,
    /// anything but `}`
    NotClose,
}

pub open spec fn in_class(c: char, k: CharClass) -> bool {
    match k {
        CharClass::IdentContinue => is_ascii_alpha(c) || is_ascii_digit(c) || c == '_' || c == '.',
        CharClass::Digit => is_ascii_digit(c),
        CharClass::Space => is_space(c),
        CharClass::Flag => c == '-' || c == '+' || c == ' ' || c == '#' || c == '0',
        CharClass::Length => c == 'h' || c == 'l' || c == 'L' || c == 'z' || c == 'j' || c == 't',
        CharClass::NotClose => c != '}',
    }
}

fn in_class_exec(c: char, k: CharClass) -> (r: bool)
    ensures
        r == in_class(c, k),
{
    match k {
        CharClass::IdentContinue => ('a' <= c && c <= 'z') || ('A' <= c && c <= 'Z') || ('0' <= c
            && c <= '9') || c == '_' || c == '.',
        CharClass::Digit => '0' <= c && c <= '9',
        CharClass::Space => is_space_char(c),
        CharClass::Flag => c == '-' || c == '+' || c == ' ' || c == '#' || c == '0',
        CharClass::Length => c == 'h' || c == 'l' || c == 'L' || c == 'z' || c == 'j' || c == 't',
        CharClass::NotClose => c != '}',
    }
}

/// The end of the longest run of class `k` that starts at `j`.
pub open spec fn run_end(s: Seq<char>, j: int, k: CharClass) -> int
    decreases s.len() - j,
{
    if 0 <= j < s.len() && in_class(s[j], k) {
        run_end(s, j + 1, k)
    } else {
        j
    }
}

fn run_end_exec(s: &Vec<char>, j: usize, k: CharClass) -> (r: usize)
    requires
        j <= s@.len(),
    ensures
        r == run_end(s@, j as int, k),
        j <= r <= s@.len(),
{
    let mut i: usize = j;
    while i < s.len() && in_class_exec(s[i], k)
        invariant
            j <= i <= s@.len(),
            run_end(s@, j as int, k) == run_end(s@, i as int, k),
        decreases s@.len() - i,
    {
        i = i + 1;
    }
    i
}

pub open spec fn digit_of(c: char) -> nat {
    (c as int - '0' as int) as nat
}

/// The number written by the decimal digits `s[a..b]`.
pub open spec fn digits_value(s: Seq<char>, a: int, b: int) -> nat
    decreases b - a,
{
    if b <= a {
        0
    } else {
        digits_value(s, a, b - 1) * 10 + digit_of(s[b - 1])
    }
}

/// `n`, or the largest `usize` where `n` does not fit.
pub open spec fn clamp_usize(n: nat) -> nat {
    if n > usize::MAX {
        usize::MAX as nat
    } else {
        n
    }
}

pub open spec fn is_ident_start(c: char) -> bool {
    is_ascii_alpha(c) || c == '_'
}

pub open spec fn is_conversion(c: char) -> bool {
    c == 'd' || c == 'i' || c == 'u' || c == 'o' || c == 'x' || c == 'X' || c == 'f' || c == 'F'
        || c == 'e' || c == 'E' || c == 'g' || c == 'G' || c == 'a' || c == 'A' || c == 'c' || c
        == 's' || c == 'p' || c == 'n' || c == '%'
}

/// A brace placeholder at `i`: `{`, an optional name or index, optional white space, an
/// optional `:` with a format spec, and `}`. Gives its end and its argument.
pub open spec fn brace_at(s: Seq<char>, i: int) -> Option<(int, ArgView)> {
    if 0 <= i < s.len() && s[i] == '{' {
        let j = i + 1;
        let named = j < s.len() && is_ident_start(s[j]);
        let indexed = j < s.len() && is_ascii_digit(s[j]);
        let k = if named {
            run_end(s, j + 1, CharClass::IdentContinue)
        } else if indexed {
            run_end(s, j, CharClass::Digit)
        } else {
            j
        };
        let arg = if named {
            ArgView::Named(s.subrange(j, k))
        } else if indexed {
            ArgView::Positional(clamp_usize(digits_value(s, j, k)))
        } else {
            ArgView::Placeholder
        };
        let m = run_end(s, k, CharClass::Space);
        if m < s.len() && s[m] == ':' {
            let n = run_end(s, m + 1, CharClass::NotClose);
            if n < s.len() {
                Some((n + 1, arg))
            } else {
                None
            }
        } else if m < s.len() && s[m] == '}' {
            Some((m + 1, arg))
        } else {
            None
        }
    } else {
        None
    }
}

/// A printf conversion at `i`: `%`, flags, width, precision, length and a conversion letter.
pub open spec fn percent_at(s: Seq<char>, i: int) -> Option<(int, ArgView)> {
    if 0 <= i < s.len() && s[i] == '%' {
        let f = run_end(s, i + 1, CharClass::Flag);
        let w = run_end(s, f, CharClass::Digit);
        let p = if w + 1 < s.len() && s[w] == '.' && is_ascii_digit(s[w + 1]) {
            run_end(s, w + 1, CharClass::Digit)
        } else {
            w
        };
        let l = run_end(s, p, CharClass::Length);
        if l < s.len() && is_conversion(s[l]) {
            Some((l + 1, ArgView::Placeholder))
        } else {
            None
        }
    } else {
        None
    }
}

/// A placeholder in the style of logging facades for the JVM at `i`: `{...}`, or `\{name}`.
pub open spec fn braces_or_escaped_at(s: Seq<char>, i: int) -> Option<(int, ArgView)> {
    if 0 <= i < s.len() && s[i] == '{' {
        let n = run_end(s, i + 1, CharClass::NotClose);
        if n < s.len() {
            Some((n + 1, ArgView::Placeholder))
        } else {
            None
        }
    } else if 0 <= i && i + 1 < s.len() && s[i] == '\\' && s[i + 1] == '{' {
        let n = run_end(s, i + 2, CharClass::NotClose);
        if n < s.len() {
            Some((n + 1, ArgView::Named(s.subrange(i + 2, n))))
        } else {
            None
        }
    } else {
        None
    }
}

/// The placeholder of language `lang` that starts at position `i` of `s`, if any: where it
/// ends, and how its value is labeled.
pub open spec fn placeholder_at(lang: SourceLanguage, s: Seq<char>, i: int) -> Option<(int, ArgView)> {
    match lang {
        SourceLanguage::Rust => brace_at(s, i),
        SourceLanguage::Java => braces_or_escaped_at(s, i),
        SourceLanguage::Cpp => match percent_at(s, i) {
            Some(x) => Some(x),
            None => brace_at(s, i),
        },
        SourceLanguage::Python => percent_at(s, i),
    }
}

fn chars_between(s: &Vec<char>, a: usize, b: usize) -> (r: Vec<char>)
    requires
        a <= b <= s@.len(),
    ensures
        r@ == s@.subrange(a as int, b as int),
{
    let mut r: Vec<char> = Vec::new();
    let mut k: usize = a;
    while k < b
        invariant
            a <= k <= b <= s@.len(),
            r@ == s@.subrange(a as int, k as int),
        decreases b - k,
    {
        r.push(s[k]);
        k = k + 1;
        assert(r@ =~= s@.subrange(a as int, k as int));
    }
    r
}

fn string_between(s: &Vec<char>, a: usize, b: usize) -> (r: String)
    requires
        a <= b <= s@.len(),
    ensures
        r@ == s@.subrange(a as int, b as int),
{
    let v = chars_between(s, a, b);
    crate::text::string_of(v.as_slice())
}

fn digits_value_exec(s: &Vec<char>, a: usize, b: usize) -> (r: usize)
    requires
        a <= b <= s@.len(),
        forall|q: int| a <= q < b ==> is_ascii_digit(#[trigger] s@[q]),
    ensures
        r as nat == clamp_usize(digits_value(s@, a as int, b as int)),
{
    let mut v: usize = 0;
    let mut q: usize = a;
    while q < b
        invariant
            a <= q <= b <= s@.len(),
            forall|x: int| a <= x < b ==> is_ascii_digit(#[trigger] s@[x]),
            v as nat == clamp_usize(digits_value(s@, a as int, q as int)),
        decreases b - q,
    {
        assert(is_ascii_digit(s@[q as int]));
        let d: usize = ((s[q] as u32) - ('0' as u32)) as usize;
        let ghost dv = digits_value(s@, a as int, q as int);
        assert(d as nat == digit_of(s@[q as int]));
        assert(d <= 9);
        assert(digits_value(s@, a as int, q + 1) == dv * 10 + d);
        if v > (usize::MAX - d) / 10 {
            assert(dv * 10 + d > usize::MAX) by (nonlinear_arith)
                requires
                    v as nat == clamp_usize(dv),
                    v > (usize::MAX - d) / 10,
                    d <= 9,
            ;
            v = usize::MAX;
        } else {
            assert(dv <= usize::MAX);
            assert(v * 10 + d <= usize::MAX) by (nonlinear_arith)
                requires
                    v <= (usize::MAX - d) / 10,
                    d <= 9,
            ;
            v = v * 10 + d;
        }
        q = q + 1;
    }
    v
}

/// Where the placeholder at `i` ends and its argument, as [`placeholder_at`] states.
pub fn placeholder_at_exec(lang: SourceLanguage, s: &Vec<char>, i: usize) -> (r: Option<(usize, FormatArgument)>)
    requires
        i < s@.len(),
    ensures
        r is None <==> placeholder_at(lang, s@, i as int) is None,
        r matches Some(x) ==> placeholder_at(lang, s@, i as int) == Some((x.0 as int, x.1@)),
        r matches Some(x) ==> i < x.0 <= s@.len(),
{
    match lang {
        SourceLanguage::Rust => brace_exec(s, i),
        SourceLanguage::Java => braces_or_escaped_exec(s, i),
        SourceLanguage::Cpp => {
            let p = percent_exec(s, i);
            if p.is_some() {
                p
            } else {
                brace_exec(s, i)
            }
        },
        SourceLanguage::Python => percent_exec(s, i),
    }
}

fn brace_exec(s: &Vec<char>, i: usize) -> (r: Option<(usize, FormatArgument)>)
    requires
        i < s@.len(),
    ensures
        r is None <==> brace_at(s@, i as int) is None,
        r matches Some(x) ==> brace_at(s@, i as int) == Some((x.0 as int, x.1@)),
        r matches Some(x) ==> i < x.0 <= s@.len(),
{
    let len = s.len();
    if s[i] != '{' {
        return None;
    }
    let j = i + 1;
    let named = j < s.len() && (('a' <= s[j] && s[j] <= 'z') || ('A' <= s[j] && s[j] <= 'Z')
        || s[j] == '_');
    let indexed = j < s.len() && '0' <= s[j] && s[j] <= '9';
    let k: usize;
    let arg: FormatArgument;
    if named {
        k = run_end_exec(s, j + 1, CharClass::IdentContinue);
        arg = FormatArgument::Named(string_between(s, j, k));
    } else if indexed {
        k = run_end_exec(s, j, CharClass::Digit);
        proof {
            lemma_run_digits(s@, j as int);
        }
        arg = FormatArgument::Positional(digits_value_exec(s, j, k));
    } else {
        k = j;
        arg = FormatArgument::Placeholder;
    }
    let m = run_end_exec(s, k, CharClass::Space);
    if m < s.len() && s[m] == ':' {
        let n = run_end_exec(s, m + 1, CharClass::NotClose);
        if n < s.len() {
            Some((n + 1, arg))
        } else {
            None
        }
    } else if m < s.len() && s[m] == '}' {
        Some((m + 1, arg))
    } else {
        None
    }
}

/// Every character of the run that [`run_end`] measures belongs to the class.
pub proof fn lemma_run_digits(s: Seq<char>, j: int)
    requires
        0 <= j <= s.len(),
    ensures
        forall|q: int| j <= q < run_end(s, j, CharClass::Digit) ==> is_ascii_digit(#[trigger] s[q]),
    decreases s.len() - j,
{
    if j < s.len() && is_ascii_digit(s[j]) {
        lemma_run_digits(s, j + 1);
    }
}

fn percent_exec(s: &Vec<char>, i: usize) -> (r: Option<(usize, FormatArgument)>)
    requires
        i < s@.len(),
    ensures
        r is None <==> percent_at(s@, i as int) is None,
        r matches Some(x) ==> percent_at(s@, i as int) == Some((x.0 as int, x.1@)),
        r matches Some(x) ==> i < x.0 <= s@.len(),
{
    let len = s.len();
    if s[i] != '%' {
        return None;
    }
    let f = run_end_exec(s, i + 1, CharClass::Flag);
    let w = run_end_exec(s, f, CharClass::Digit);
    let p = if w < len && w + 1 < len && s[w] == '.' && '0' <= s[w + 1] && s[w + 1] <= '9' {
        run_end_exec(s, w + 1, CharClass::Digit)
    } else {
        w
    };
    let l = run_end_exec(s, p, CharClass::Length);
    if l < s.len() {
        let c = s[l];
        if c == 'd' || c == 'i' || c == 'u' || c == 'o' || c == 'x' || c == 'X' || c == 'f' || c
            == 'F' || c == 'e' || c == 'E' || c == 'g' || c == 'G' || c == 'a' || c == 'A' || c
            == 'c' || c == 's' || c == 'p' || c == 'n' || c == '%' {
            return Some((l + 1, FormatArgument::Placeholder));
        }
    }
    None
}

fn braces_or_escaped_exec(s: &Vec<char>, i: usize) -> (r: Option<(usize, FormatArgument)>)
    requires
        i < s@.len(),
    ensures
        r is None <==> braces_or_escaped_at(s@, i as int) is None,
        r matches Some(x) ==> braces_or_escaped_at(s@, i as int) == Some((x.0 as int, x.1@)),
        r matches Some(x) ==> i < x.0 <= s@.len(),
{
    let len = s.len();
    if s[i] == '{' {
        let n = run_end_exec(s, i + 1, CharClass::NotClose);
        if n < s.len() {
            Some((n + 1, FormatArgument::Placeholder))
        } else {
            None
        }
    } else if i + 1 < len && s[i] == '\\' && s[i + 1] == '{' {
        let n = run_end_exec(s, i + 2, CharClass::NotClose);
        if n < s.len() {
            Some((n + 1, FormatArgument::Named(string_between(s, i + 2, n))))
        } else {
            None
        }
    } else {
        None
    }
}

/// Characters that have a meaning in a regular expression and are escaped with `\`.
pub open spec fn is_regex_special(c: char) -> bool {
    c == '.' || c == '*' || c == '+' || c == '?' || c == '^' || c == '$' || c == '{' || c == '}'
        || c == '(' || c == ')' || c == '|' || c == '[' || c == ']'
}

pub open spec fn is_octal(c: char) -> bool {
    '0' <= c && c <= '7'
}

pub open spec fn octal_value(a: char, b: char, c: char) -> nat {
    digit_of(a) * 64 + digit_of(b) * 8 + digit_of(c)
}

/// The upper-case hexadecimal digit for `v < 16`.
pub open spec fn hex_char(v: nat) -> char {
    if v < 10 {
        (('0' as nat) + v) as char
    } else {
        (('A' as nat) + v - 10) as char
    }
}

/// What escaping emits for the text at `i`, and where it goes on. Regex metacharacters get a
/// `\`; newline, carriage return and tab become `\n`, `\r`, `\t`. In a cooked literal an octal
/// escape `\ooo` (at most `\377`) or `\0` becomes a hex escape and a named Unicode escape
/// `\N{...}` becomes `\w`; other backslashes stay. In a raw literal a backslash is doubled.
pub open spec fn escape_step(raw: bool, s: Seq<char>, i: int) -> (Seq<char>, int) {
    let c = s[i];
    if is_regex_special(c) {
        (seq!['\\', c], i + 1)
    } else if c == '\n' {
        (seq!['\\', 'n'], i + 1)
    } else if c == '\r' {
        (seq!['\\', 'r'], i + 1)
    } else if c == '\t' {
        (seq!['\\', 't'], i + 1)
    } else if c == '\\' {
        if raw {
            (seq!['\\', '\\'], i + 1)
        } else if i + 3 < s.len() && is_octal(s[i + 1]) && is_octal(s[i + 2]) && is_octal(s[i + 3])
            && octal_value(s[i + 1], s[i + 2], s[i + 3]) <= 255 {
            let v = octal_value(s[i + 1], s[i + 2], s[i + 3]);
            (seq!['\\', 'x', hex_char(v / 16), hex_char(v % 16)], i + 4)
        } else if i + 1 < s.len() && s[i + 1] == '0' && !(i + 3 < s.len() && is_octal(s[i + 2])
            && is_octal(s[i + 3])) {
            (seq!['\\', 'x', '0', '0'], i + 2)
        } else if i + 3 < s.len() && s[i + 1] == 'N' && s[i + 2] == '{' && s[i + 3] != '}'
            && run_end(s, i + 3, CharClass::NotClose) < s.len() {
            (seq!['\\', 'w'], run_end(s, i + 3, CharClass::NotClose) + 1)
        } else {
            (seq!['\\'], i + 1)
        }
    } else {
        (seq![c], i + 1)
    }
}

/// The escaped form of `s[i..]`.
pub open spec fn escape_from(raw: bool, s: Seq<char>, i: int) -> Seq<char>
    decreases s.len() - i,
{
    if 0 <= i < s.len() {
        let (out, next) = escape_step(raw, s, i);
        if i < next <= s.len() {
            out + escape_from(raw, s, next)
        } else {
            out
        }
    } else {
        seq![]
    }
}

/// A literal run, escaped so that a regular expression matches it literally (newlines, tabs
/// and the escapes of the source language excepted, as [`escape_step`] says).
pub open spec fn escape_literal(raw: bool, s: Seq<char>) -> Seq<char> {
    escape_from(raw, s, 0)
}

fn hex_char_exec(v: u32) -> (r: char)
    requires
        v < 16,
    ensures
        r == hex_char(v as nat),
{
    if v < 10 {
        char_at_offset('0', v)
    } else {
        char_at_offset('A', v - 10)
    }
}

pub(crate) fn char_at_offset(base: char, v: u32) -> (r: char)
    requires
        base == '0' || base == 'A',
        v < 10,
    ensures
        r == ((base as nat) + v) as char,
{
    let digits = ['0', '1', '2', '3', '4', '5', '6', '7', '8', '9'];
    let letters = ['A', 'B', 'C', 'D', 'E', 'F', 'G', 'H', 'I', 'J'];
    if base == '0' {
        digits[v as usize]
    } else {
        letters[v as usize]
    }
}

fn escape_step_exec(raw: bool, s: &Vec<char>, i: usize, out: &mut Vec<char>) -> (next: usize)
    requires
        i < s@.len(),
    ensures
        final(out)@ == old(out)@ + escape_step(raw, s@, i as int).0,
        next == escape_step(raw, s@, i as int).1,
        i < next <= s@.len(),
{
    let len = s.len();
    let c = s[i];
    if c == '.' || c == '*' || c == '+' || c == '?' || c == '^' || c == '$' || c == '{' || c == '}'
        || c == '(' || c == ')' || c == '|' || c == '[' || c == ']' {
        out.push('\\');
        out.push(c);
        i + 1
    } else if c == '\n' || c == '\r' || c == '\t' {
        out.push('\\');
        out.push(
            if c == '\n' {
                'n'
            } else if c == '\r' {
                'r'
            } else {
                't'
            },
        );
        i + 1
    } else if c == '\\' {
        if raw {
            out.push('\\');
            out.push('\\');
            return i + 1;
        }
        let three_octals = len - i > 3 && '0' <= s[i + 1] && s[i + 1] <= '7' && '0' <= s[i + 2]
            && s[i + 2] <= '7' && '0' <= s[i + 3] && s[i + 3] <= '7';
        if three_octals {
            let v: u32 = ((s[i + 1] as u32) - 48) * 64 + ((s[i + 2] as u32) - 48) * 8 + ((s[i + 3]
                as u32) - 48);
            if v <= 255 {
                out.push('\\');
                out.push('x');
                out.push(hex_char_exec(v / 16));
                out.push(hex_char_exec(v % 16));
                return i + 4;
            }
        }
        if i + 1 < len && s[i + 1] == '0' && !(len - i > 3 && '0' <= s[i + 2] && s[i + 2] <= '7'
            && '0' <= s[i + 3] && s[i + 3] <= '7') {
            out.push('\\');
            out.push('x');
            out.push('0');
            out.push('0');
            return i + 2;
        }
        if len - i > 3 && s[i + 1] == 'N' && s[i + 2] == '{' && s[i + 3] != '}' {
            let n = run_end_exec(s, i + 3, CharClass::NotClose);
            if n < len {
                out.push('\\');
                out.push('w');
                return n + 1;
            }
        }
        out.push('\\');
        i + 1
    } else {
        out.push(c);
        i + 1
    }
}

/// Appends the escaped form of `s` to `out`.
fn escape_into(raw: bool, s: &Vec<char>, out: &mut Vec<char>)
    ensures
        final(out)@ == old(out)@ + escape_literal(raw, s@),
{
    let len = s.len();
    let ghost start = out@;
    let mut i: usize = 0;
    while i < len
        invariant
            i <= len == s@.len(),
            out@ + escape_from(raw, s@, i as int) == start + escape_from(raw, s@, 0),
        decreases len - i,
    {
        let ghost before = out@;
        let next = escape_step_exec(raw, s, i, out);
        assert(escape_from(raw, s@, i as int) == escape_step(raw, s@, i as int).0 + escape_from(
            raw,
            s@,
            next as int,
        ));
        assert(out@ + escape_from(raw, s@, next as int) =~= before + escape_from(raw, s@, i as int));
        i = next;
    }
    assert(escape_from(raw, s@, i as int) =~= seq![]);
    assert(out@ =~= out@ + escape_from(raw, s@, i as int));
}

/// The literal runs of `s` between the placeholders of `lang` and the placeholders'
/// arguments, scanning left to right from `i` with the current run starting at `last`.
pub open spec fn split_from(lang: SourceLanguage, s: Seq<char>, i: int, last: int) -> (
    Seq<Seq<char>>,
    Seq<ArgView>,
)
    decreases s.len() - i,
{
    if 0 <= i < s.len() {
        match placeholder_at(lang, s, i) {
            Some((e, a)) => if i < e <= s.len() {
                let rest = split_from(lang, s, e, e);
                (seq![s.subrange(last, i)] + rest.0, seq![a] + rest.1)
            } else {
                split_from(lang, s, i + 1, last)
            },
            None => split_from(lang, s, i + 1, last),
        }
    } else {
        (seq![s.subrange(last, s.len() as int)], seq![])
    }
}

/// The literal runs of a format string: one more than it has placeholders.
pub open spec fn literal_runs(lang: SourceLanguage, s: Seq<char>) -> Seq<Seq<char>> {
    split_from(lang, s, 0, 0).0
}

/// The arguments of a format string's placeholders, left to right.
pub open spec fn format_args(lang: SourceLanguage, s: Seq<char>) -> Seq<ArgView> {
    split_from(lang, s, 0, 0).1
}

pub open spec fn group_text() -> Seq<char> {
    seq!['(', '.', '+', ')']
}

/// Each run escaped and followed by a capture group.
pub open spec fn runs_with_groups(raw: bool, runs: Seq<Seq<char>>) -> Seq<char>
    decreases runs.len(),
{
    if runs.len() == 0 {
        seq![]
    } else {
        runs_with_groups(raw, runs.drop_last()) + escape_literal(raw, runs.last()) + group_text()
    }
}

/// The number of non-white-space characters in the escaped runs.
pub open spec fn runs_quality(raw: bool, runs: Seq<Seq<char>>) -> nat
    decreases runs.len(),
{
    if runs.len() == 0 {
        0
    } else {
        runs_quality(raw, runs.drop_last()) + crate::text::non_space_count(
            escape_literal(raw, runs.last()),
        )
    }
}

/// The anchored pattern for a format string: `(?s)^`, the escaped literal runs with a group
/// `(.+)` for each placeholder between them, and `$`.
pub open spec fn matcher_pattern(raw: bool, lang: SourceLanguage, s: Seq<char>) -> Seq<char> {
    let runs = literal_runs(lang, s);
    seq!['(', '?', 's', ')', '^'] + runs_with_groups(raw, runs.drop_last()) + escape_literal(
        raw,
        runs.last(),
    ) + seq!['$']
}

/// How many literal, non-white-space characters the pattern for a format string holds.
pub open spec fn matcher_quality(raw: bool, lang: SourceLanguage, s: Seq<char>) -> nat {
    runs_quality(raw, literal_runs(lang, s))
}

/// The matcher synthesized for one format string.
pub struct MessageMatcher {
    pub matcher: crate::pattern::Pattern,
    pub quality: usize,
    pub pattern: String,
    pub args: Vec<FormatArgument>,
}

fn non_space_in(v: &Vec<char>) -> (r: usize)
    ensures
        r == crate::text::non_space_count(v@),
{
    let mut n: usize = 0;
    let mut k: usize = 0;
    while k < v.len()
        invariant
            k <= v@.len(),
            n == crate::text::non_space_count(v@.subrange(0, k as int)),
            n <= k,
        decreases v@.len() - k,
    {
        assert(v@.subrange(0, k + 1).drop_last() =~= v@.subrange(0, k as int));
        if !is_space_char(v[k]) {
            n = n + 1;
        }
        k = k + 1;
    }
    assert(v@.subrange(0, k as int) =~= v@);
    n
}

fn append_chars(out: &mut Vec<char>, more: &Vec<char>)
    ensures
        final(out)@ == old(out)@ + more@,
{
    let ghost start = out@;
    let mut k: usize = 0;
    while k < more.len()
        invariant
            k <= more@.len(),
            out@ == start + more@.subrange(0, k as int),
        decreases more@.len() - k,
    {
        out.push(more[k]);
        k = k + 1;
        assert(out@ =~= start + more@.subrange(0, k as int));
    }
    assert(more@.subrange(0, k as int) =~= more@);
}

/// Builds the matcher for the format string `text` of language `lang`: an anchored pattern
/// with one group per placeholder, its quality, and the placeholders' arguments. There is
/// none when the text holds no literal character, or when the pattern does not compile.
pub fn build_matcher(raw: bool, text: &str, lang: SourceLanguage) -> (r: Option<MessageMatcher>)
    ensures
        r is None <==> (matcher_quality(raw, lang, text@) == 0
            || !crate::pattern::pattern_compiles(matcher_pattern(raw, lang, text@))),
        r matches Some(m) ==> {
            &&& m.pattern@ == matcher_pattern(raw, lang, text@)
            &&& m.matcher@ == matcher_pattern(raw, lang, text@)
            &&& m.quality as nat == matcher_quality(raw, lang, text@)
            &&& arg_views(m.args@) == format_args(lang, text@)
        },
{
    let s = crate::text::chars_of(text);
    let len = s.len();
    let mut pat: Vec<char> = vec!['(', '?', 's', ')', '^'];
    let mut args: Vec<FormatArgument> = Vec::new();
    let mut quality: usize = 0;
    let ghost mut runs: Seq<Seq<char>> = seq![];
    let mut last: usize = 0;
    let mut i: usize = 0;
    while i < len
        invariant
            last <= i <= len == s@.len(),
            s@ == text@,
            split_from(lang, s@, 0, 0) == (
                runs + split_from(lang, s@, i as int, last as int).0,
                arg_views(args@) + split_from(lang, s@, i as int, last as int).1,
            ),
            pat@ == seq!['(', '?', 's', ')', '^'] + runs_with_groups(raw, runs),
            quality as nat == runs_quality(raw, runs),
            quality <= pat@.len(),
        decreases len - i,
    {
        match placeholder_at_exec(lang, &s, i) {
            Some((e, a)) => {
                let run = chars_between(&s, last, i);
                let mut esc: Vec<char> = Vec::new();
                escape_into(raw, &run, &mut esc);
                let q = non_space_in(&esc);
                assert(q <= esc@.len()) by {
                    crate::text::lemma_non_space_count_le(esc@);
                }
                let ghost old_pat = pat@;
                append_chars(&mut pat, &esc);
                pat.push('(');
                pat.push('.');
                pat.push('+');
                pat.push(')');
                // Its length fits a `usize`, and so does the quality, which counts part of it.
                let _ = pat.len();
                quality = quality + q;
                let ghost rest = split_from(lang, s@, e as int, e as int);
                proof {
                    let r2 = runs.push(run@);
                    assert(r2.drop_last() =~= runs);
                    assert(pat@ =~= seq!['(', '?', 's', ')', '^'] + runs_with_groups(raw, r2));
                    assert(split_from(lang, s@, i as int, last as int) == (
                        seq![run@] + rest.0,
                        seq![a@] + rest.1,
                    ));
                    assert(runs + (seq![run@] + rest.0) =~= r2 + rest.0);
                    runs = r2;
                }
                let ghost old_args = args@;
                let ghost av = a@;
                args.push(a);
                assert(args@.drop_last() =~= old_args);
                assert(arg_views(args@) + rest.1 =~= arg_views(old_args) + (seq![av] + rest.1));
                last = e;
                i = e;
            },
            None => {
                i = i + 1;
            },
        }
    }
    let run = chars_between(&s, last, len);
    let mut esc: Vec<char> = Vec::new();
    escape_into(raw, &run, &mut esc);
    let q = non_space_in(&esc);
    assert(q <= esc@.len()) by {
        crate::text::lemma_non_space_count_le(esc@);
    }
    append_chars(&mut pat, &esc);
    pat.push('$');
    // Its length fits a `usize`, and so does the quality, which counts part of it.
    let _ = pat.len();
    quality = quality + q;
    proof {
        let all = runs.push(run@);
        assert(split_from(lang, s@, i as int, last as int) == (seq![run@], Seq::<ArgView>::empty()));
        assert(literal_runs(lang, text@) =~= all);
        assert(all.drop_last() =~= runs);
        assert(format_args(lang, text@) =~= arg_views(args@));
        assert(pat@ =~= matcher_pattern(raw, lang, text@));
    }
    if quality == 0 {
        return None;
    }
    let pattern = crate::text::string_of(pat.as_slice());
    match crate::pattern::Pattern::new(pattern.as_str()) {
        Ok(matcher) => Some(MessageMatcher { matcher, quality, pattern, args }),
        Err(_) => None,
    }
}

/// A run of class `k` from `j` that stops at `k_end` ends there.
pub proof fn lemma_run_end_at(s: Seq<char>, j: int, k_end: int, k: CharClass)
    requires
        0 <= j <= k_end <= s.len(),
        forall|q: int| j <= q < k_end ==> in_class(#[trigger] s[q], k),
        k_end == s.len() || !in_class(s[k_end], k),
    ensures
        run_end(s, j, k) == k_end,
    decreases k_end - j,
{
    if j < k_end {
        lemma_run_end_at(s, j + 1, k_end, k);
    }
}

/// A named placeholder `{name}` yields `Named(name)`.
pub proof fn lemma_named_placeholder(lang: SourceLanguage, s: Seq<char>, i: int, k: int)
    requires
        lang == SourceLanguage::Rust || lang == SourceLanguage::Cpp,
        0 <= i,
        i + 1 < k < s.len(),
        s[i] == '{',
        is_ident_start(s[i + 1]),
        forall|q: int| i + 1 < q < k ==> in_class(#[trigger] s[q], CharClass::IdentContinue),
        s[k] == '}',
    ensures
        placeholder_at(lang, s, i) == Some((k + 1, ArgView::Named(s.subrange(i + 1, k)))),
{
    lemma_run_end_at(s, i + 2, k, CharClass::IdentContinue);
    lemma_run_end_at(s, k, k, CharClass::Space);
}

/// A numeric placeholder `{n}` yields `Positional(n)`.
pub proof fn lemma_positional_placeholder(lang: SourceLanguage, s: Seq<char>, i: int, k: int)
    requires
        lang == SourceLanguage::Rust || lang == SourceLanguage::Cpp,
        0 <= i,
        i + 1 < k < s.len(),
        s[i] == '{',
        forall|q: int| i + 1 <= q < k ==> is_ascii_digit(#[trigger] s[q]),
        s[k] == '}',
    ensures
        placeholder_at(lang, s, i) == Some(
            (k + 1, ArgView::Positional(clamp_usize(digits_value(s, i + 1, k)))),
        ),
{
    assert(is_ascii_digit(s[i + 1]));
    lemma_run_end_at(s, i + 1, k, CharClass::Digit);
    lemma_run_end_at(s, k, k, CharClass::Space);
}

/// An empty placeholder `{}` yields `Placeholder`.
pub proof fn lemma_empty_placeholder(lang: SourceLanguage, s: Seq<char>, i: int)
    requires
        0 <= i,
        i + 1 < s.len(),
        s[i] == '{',
        s[i + 1] == '}',
    ensures
        placeholder_at(lang, s, i) == Some((i + 2, ArgView::Placeholder)) || lang
            == SourceLanguage::Python,
{
    lemma_run_end_at(s, i + 1, i + 1, CharClass::Space);
    lemma_run_end_at(s, i + 1, i + 1, CharClass::NotClose);
}

proof fn lemma_split_lengths(lang: SourceLanguage, s: Seq<char>, i: int, last: int)
    ensures
        split_from(lang, s, i, last).0.len() == split_from(lang, s, i, last).1.len() + 1,
    decreases s.len() - i,
{
    if 0 <= i < s.len() {
        match placeholder_at(lang, s, i) {
            Some((e, a)) => if i < e <= s.len() {
                lemma_split_lengths(lang, s, e, e);
            } else {
                lemma_split_lengths(lang, s, i + 1, last);
            },
            None => lemma_split_lengths(lang, s, i + 1, last),
        }
    }
}

/// A format string with N placeholders gives a pattern of N + 1 escaped literal runs with one
/// capture group `(.+)` between each two, and N arguments, in the placeholders' order.
pub proof fn lemma_one_group_per_placeholder(raw: bool, lang: SourceLanguage, s: Seq<char>)
    ensures
        literal_runs(lang, s).len() == format_args(lang, s).len() + 1,
        literal_runs(lang, s).drop_last().len() == format_args(lang, s).len(),
        matcher_pattern(raw, lang, s) == seq!['(', '?', 's', ')', '^'] + runs_with_groups(
            raw,
            literal_runs(lang, s).drop_last(),
        ) + escape_literal(raw, literal_runs(lang, s).last()) + seq!['$'],
{
    lemma_split_lengths(lang, s, 0, 0);
}

/// White space other than newline, carriage return and tab.
pub open spec fn is_plain_space(c: char) -> bool {
    is_space(c) && c != '\n' && c != '\r' && c != '\t'
}

proof fn lemma_escape_plain_space(raw: bool, s: Seq<char>, i: int)
    requires
        0 <= i <= s.len(),
        forall|q: int| 0 <= q < s.len() ==> is_plain_space(#[trigger] s[q]),
    ensures
        escape_from(raw, s, i) == s.subrange(i, s.len() as int),
    decreases s.len() - i,
{
    if i < s.len() {
        assert(is_plain_space(s[i]));
        lemma_escape_plain_space(raw, s, i + 1);
        assert(s.subrange(i, s.len() as int) =~= seq![s[i]] + s.subrange(i + 1, s.len() as int));
    } else {
        assert(s.subrange(i, s.len() as int) =~= seq![]);
    }
}

proof fn lemma_plain_space_count(s: Seq<char>)
    requires
        forall|q: int| 0 <= q < s.len() ==> is_plain_space(#[trigger] s[q]),
    ensures
        crate::text::non_space_count(s) == 0,
    decreases s.len(),
{
    if s.len() > 0 {
        assert(is_plain_space(s[s.len() - 1]));
        assert forall|q: int| 0 <= q < s.drop_last().len() implies is_plain_space(
            #[trigger] s.drop_last()[q],
        ) by {
            assert(is_plain_space(s[q]));
        }
        lemma_plain_space_count(s.drop_last());
    }
}

proof fn lemma_quality_zero(raw: bool, runs: Seq<Seq<char>>)
    requires
        forall|k: int, q: int|
            0 <= k < runs.len() && 0 <= q < runs[k].len() ==> is_plain_space(#[trigger] runs[k][q]),
    ensures
        runs_quality(raw, runs) == 0,
    decreases runs.len(),
{
    if runs.len() > 0 {
        let r = runs.last();
        assert forall|q: int| 0 <= q < r.len() implies is_plain_space(#[trigger] r[q]) by {
            assert(is_plain_space(runs[runs.len() - 1][q]));
        }
        lemma_escape_plain_space(raw, r, 0);
        assert(r.subrange(0, r.len() as int) =~= r);
        lemma_plain_space_count(r);
        assert forall|k: int, q: int|
            0 <= k < runs.drop_last().len() && 0 <= q < runs.drop_last()[k].len() implies is_plain_space(
            #[trigger] runs.drop_last()[k][q],
        ) by {
            assert(is_plain_space(runs[k][q]));
        }
        lemma_quality_zero(raw, runs.drop_last());
    }
}

/// A format string whose text outside its placeholders is all white space (newline, carriage
/// return and tab aside, which escaping turns into literal text) has quality 0, so no matcher
/// is built for it.
pub proof fn lemma_blank_literal_has_no_matcher(raw: bool, lang: SourceLanguage, s: Seq<char>)
    requires
        forall|k: int, q: int|
            0 <= k < literal_runs(lang, s).len() && 0 <= q < literal_runs(lang, s)[k].len()
                ==> is_plain_space(#[trigger] literal_runs(lang, s)[k][q]),
    ensures
        matcher_quality(raw, lang, s) == 0,
{
    lemma_quality_zero(raw, literal_runs(lang, s));
}

/// A number whose digits continue past `b` is at least the number of `s[a..b]`.
pub proof fn lemma_digits_prefix_grows(s: Seq<char>, a: int, b: int, c: int)
    requires
        a <= b <= c,
    ensures
        digits_value(s, a, b) <= digits_value(s, a, c),
    decreases c - b,
{
    if b < c {
        lemma_digits_prefix_grows(s, a, b, c - 1);
    }
}

} // verus!
