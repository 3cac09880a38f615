//! The line patterns of the page-boundary cascade.
//!
//! Every pattern classifies one line of the document. The explicit page-marker
//! family (`# Page N` headings, bare `Page N` lines, a custom marker) has
//! priority over the fallback family (horizontal rules, HTML page-break
//! comments, LaTeX directives, H1/H2 headings); the detector decides once per
//! document which family applies.

use vstd::prelude::*;
use vstd::string::StrSliceExecFns;

use crate::text::contains_digit;
use crate::text::find_digit;
use crate::text::has_word_at;
use crate::text::has_word_ci_at;
use crate::text::is_space;
use crate::text::is_space_char;
use crate::text::scan_char;
use crate::text::scan_digits;
use crate::text::scan_spaces;
use crate::text::skip_char;
use crate::text::skip_digits;
use crate::text::skip_spaces;
use crate::text::spec_trim;
use crate::text::trim_str;
use crate::text::word_at;
use crate::text::word_at_ci;

verus! {

/// The word the explicit page markers are built around.
pub open spec fn page_word() -> Seq<char> {
    seq!['p', 'a', 'g', 'e']
}

fn page_chars() -> (w: Vec<char>)
    ensures
        w@ == page_word(),
{
    let mut w: Vec<char> = Vec::new();
    w.push('p');
    w.push('a');
    w.push('g');
    w.push('e');
    proof {
        assert(w@ =~= page_word());
    }
    w
}

/// A `# Page N` or `## Page N` heading: optional surrounding whitespace, one
/// or two `#` marks, whitespace, the word "page" in any case, whitespace, one
/// or more decimal digits, and nothing else.
pub open spec fn is_heading_page_marker(l: Seq<char>) -> bool {
    let a = skip_spaces(l, 0);
    let h = skip_char(l, a, '#');
    let b = skip_spaces(l, h);
    let d = skip_spaces(l, b + 4);
    let e = skip_digits(l, d);
    &&& 1 <= h - a <= 2
    &&& b > h
    &&& word_at_ci(l, b, page_word())
    &&& d > b + 4
    &&& e > d
    &&& skip_spaces(l, e) == l.len()
}

pub fn check_heading_page_marker(l: &str) -> (r: bool)
    ensures
        r == is_heading_page_marker(l@),
{
    let n = l.unicode_len();
    let a = scan_spaces(l, 0);
    let h = scan_char(l, a, '#');
    if h - a < 1 || h - a > 2 {
        return false;
    }
    let b = scan_spaces(l, h);
    if b <= h {
        return false;
    }
    if !has_word_ci_at(l, b, &page_chars()) {
        return false;
    }
    let d = scan_spaces(l, b + 4);
    if d <= b + 4 {
        return false;
    }
    let e = scan_digits(l, d);
    if e <= d {
        return false;
    }
    scan_spaces(l, e) == n
}

/// A bare `Page N` or `(Page N)` line: optional surrounding whitespace, an
/// optional opening parenthesis, the word "page" in any case, whitespace,
/// digits, an optional closing parenthesis, and nothing else.
pub open spec fn is_bare_page_marker(l: Seq<char>) -> bool {
    let a = skip_spaces(l, 0);
    let p = if a < l.len() && l[a] == '(' {
        a + 1
    } else {
        a
    };
    let d = skip_spaces(l, p + 4);
    let e = skip_digits(l, d);
    let f = if e < l.len() && l[e] == ')' {
        e + 1
    } else {
        e
    };
    &&& word_at_ci(l, p, page_word())
    &&& d > p + 4
    &&& e > d
    &&& skip_spaces(l, f) == l.len()
}

pub fn check_bare_page_marker(l: &str) -> (r: bool)
    ensures
        r == is_bare_page_marker(l@),
{
    let n = l.unicode_len();
    let a = scan_spaces(l, 0);
    let p = if a < n && l.get_char(a) == '(' {
        a + 1
    } else {
        a
    };
    if !has_word_ci_at(l, p, &page_chars()) {
        return false;
    }
    let d = scan_spaces(l, p + 4);
    if d <= p + 4 {
        return false;
    }
    let e = scan_digits(l, d);
    if e <= d {
        return false;
    }
    let f = if e < n && l.get_char(e) == ')' {
        e + 1
    } else {
        e
    };
    scan_spaces(l, f) == n
}

/// A horizontal rule: three or more `-` characters at the start of the line,
/// followed only by whitespace.
pub open spec fn is_horizontal_rule(l: Seq<char>) -> bool {
    let e = skip_char(l, 0, '-');
    e >= 3 && skip_spaces(l, e) == l.len()
}

pub fn check_horizontal_rule(l: &str) -> (r: bool)
    ensures
        r == is_horizontal_rule(l@),
{
    let n = l.unicode_len();
    let e = scan_char(l, 0, '-');
    e >= 3 && scan_spaces(l, e) == n
}

/// An HTML page-break comment: the line begins with `<!--`, then optionally
/// spaced lowercase `page` and `brea` with an optional trailing `k`, then
/// `-->`; anything may follow on the line.
pub open spec fn is_html_page_break(l: Seq<char>) -> bool {
    let a = skip_spaces(l, 4);
    let b = skip_spaces(l, a + 4);
    let c = if b + 4 < l.len() && l[b + 4] == 'k' {
        b + 5
    } else {
        b + 4
    };
    let d = skip_spaces(l, c);
    &&& word_at(l, 0, seq!['<', '!', '-', '-'])
    &&& word_at(l, a, page_word())
    &&& word_at(l, b, seq!['b', 'r', 'e', 'a'])
    &&& word_at(l, d, seq!['-', '-', '>'])
}

pub fn check_html_page_break(l: &str) -> (r: bool)
    ensures
        r == is_html_page_break(l@),
{
    let n = l.unicode_len();
    let mut opener: Vec<char> = Vec::new();
    opener.push('<');
    opener.push('!');
    opener.push('-');
    opener.push('-');
    proof {
        assert(opener@ =~= seq!['<', '!', '-', '-']);
    }
    if !has_word_at(l, 0, &opener) {
        return false;
    }
    let a = scan_spaces(l, 4);
    if !has_word_at(l, a, &page_chars()) {
        return false;
    }
    let b = scan_spaces(l, a + 4);
    let mut brea: Vec<char> = Vec::new();
    brea.push('b');
    brea.push('r');
    brea.push('e');
    brea.push('a');
    proof {
        assert(brea@ =~= seq!['b', 'r', 'e', 'a']);
    }
    if !has_word_at(l, b, &brea) {
        return false;
    }
    let c = if b + 4 < n && l.get_char(b + 4) == 'k' {
        b + 5
    } else {
        b + 4
    };
    let d = scan_spaces(l, c);
    let mut arrow: Vec<char> = Vec::new();
    arrow.push('-');
    arrow.push('-');
    arrow.push('>');
    proof {
        assert(arrow@ =~= seq!['-', '-', '>']);
    }
    has_word_at(l, d, &arrow)
}

/// A LaTeX `\pagebreak` or `\newpage` directive alone on the line, with
/// optional surrounding whitespace. `word` is the directive name.
pub open spec fn is_latex_directive(l: Seq<char>, word: Seq<char>) -> bool {
    let a = skip_spaces(l, 0);
    &&& a < l.len()
    &&& l[a] == '\\'
    &&& word_at(l, a + 1, word)
    &&& skip_spaces(l, a + 1 + word.len()) == l.len()
}

pub fn check_latex_directive(l: &str, word: &Vec<char>) -> (r: bool)
    ensures
        r == is_latex_directive(l@, word@),
{
    let n = l.unicode_len();
    let a = scan_spaces(l, 0);
    if a >= n || l.get_char(a) != '\\' {
        return false;
    }
    if !has_word_at(l, a + 1, word) {
        return false;
    }
    scan_spaces(l, a + 1 + word.len()) == n
}

pub open spec fn pagebreak_word() -> Seq<char> {
    seq!['p', 'a', 'g', 'e', 'b', 'r', 'e', 'a', 'k']
}

pub open spec fn newpage_word() -> Seq<char> {
    seq!['n', 'e', 'w', 'p', 'a', 'g', 'e']
}

fn pagebreak_chars() -> (w: Vec<char>)
    ensures
        w@ == pagebreak_word(),
{
    let mut w: Vec<char> = Vec::new();
    w.push('p');
    w.push('a');
    w.push('g');
    w.push('e');
    w.push('b');
    w.push('r');
    w.push('e');
    w.push('a');
    w.push('k');
    proof {
        assert(w@ =~= pagebreak_word());
    }
    w
}

fn newpage_chars() -> (w: Vec<char>)
    ensures
        w@ == newpage_word(),
{
    let mut w: Vec<char> = Vec::new();
    w.push('n');
    w.push('e');
    w.push('w');
    w.push('p');
    w.push('a');
    w.push('g');
    w.push('e');
    proof {
        assert(w@ =~= newpage_word());
    }
    w
}

/// A markdown H1 or H2 heading line: one or two `#` at the very start of the
/// line followed by a whitespace character.
pub open spec fn is_heading_line(l: Seq<char>) -> bool {
    let k = skip_char(l, 0, '#');
    &&& 1 <= k <= 2
    &&& k < l.len()
    &&& is_space_char(l[k])
}

pub fn check_heading_line(l: &str) -> (r: bool)
    ensures
        r == is_heading_line(l@),
{
    let n = l.unicode_len();
    let k = scan_char(l, 0, '#');
    1 <= k && k <= 2 && k < n && is_space(l.get_char(k))
}

/// The custom marker `m` matches `l`: the line begins with the marker text
/// exactly and carries only whitespace after it.
pub open spec fn matches_custom_marker(l: Seq<char>, m: Seq<char>) -> bool {
    &&& word_at(l, 0, m)
    &&& skip_spaces(l, m.len() as int) == l.len()
}

pub fn check_custom_marker(l: &str, m: &str) -> (r: bool)
    ensures
        r == matches_custom_marker(l@, m@),
{
    let n = l.unicode_len();
    let mlen = m.unicode_len();
    if mlen > n {
        return false;
    }
    let mut j: usize = 0;
    while j < mlen
        invariant
            0 <= j <= mlen,
            mlen == m@.len(),
            n == l@.len(),
            mlen <= n,
            forall|k: int| 0 <= k < j ==> l@[k] == m@[k],
        decreases mlen - j,
    {
        if l.get_char(j) != m.get_char(j) {
            return false;
        }
        j = j + 1;
    }
    scan_spaces(l, mlen) == n
}

/// A line of the explicit page-marker family. Without a custom marker the
/// family is the `# Page N` heading form and the bare `Page N` form; with a
/// custom marker it is the custom marker and the `# Page N` heading form (the
/// custom marker takes the bare form's slot in the cascade, which moves the
/// bare form down into the fallback family).
pub open spec fn is_explicit_marker(l: Seq<char>, custom: Option<Seq<char>>) -> bool {
    match custom {
        None => is_heading_page_marker(l) || is_bare_page_marker(l),
        Some(m) => matches_custom_marker(l, m) || is_heading_page_marker(l),
    }
}

pub fn check_explicit_marker(l: &str, custom: &Option<String>) -> (r: bool)
    ensures
        r == is_explicit_marker(l@, custom.deep_view()),
{
    match custom {
        None => check_heading_page_marker(l) || check_bare_page_marker(l),
        Some(m) => check_custom_marker(l, m.as_str()) || check_heading_page_marker(l),
    }
}

/// A line of the fallback family: horizontal rules, HTML page-break comments,
/// LaTeX directives and H1/H2 headings; when a custom marker is configured the
/// bare `Page N` form belongs here as well.
pub open spec fn is_fallback_break(l: Seq<char>, custom_present: bool) -> bool {
    ||| (custom_present && is_bare_page_marker(l))
    ||| is_horizontal_rule(l)
    ||| is_html_page_break(l)
    ||| is_latex_directive(l, pagebreak_word())
    ||| is_latex_directive(l, newpage_word())
    ||| is_heading_line(l)
}

pub fn check_fallback_break(l: &str, custom_present: bool) -> (r: bool)
    ensures
        r == is_fallback_break(l@, custom_present),
{
    (custom_present && check_bare_page_marker(l)) || check_horizontal_rule(l)
        || check_html_page_break(l) || check_latex_directive(l, &pagebreak_chars())
        || check_latex_directive(l, &newpage_chars()) || check_heading_line(l)
}

/// A markdown heading of level one to six: the `#` marks start the line, are
/// followed by a whitespace character, and at least one further character.
pub open spec fn is_title_heading(l: Seq<char>) -> bool {
    let k = skip_char(l, 0, '#');
    &&& 1 <= k <= 6
    &&& k + 2 <= l.len()
    &&& is_space_char(l[k])
}

/// The title a heading line carries: the text after the heading marks, with
/// surrounding whitespace trimmed.
pub open spec fn title_text(l: Seq<char>) -> Seq<char>
    recommends
        is_title_heading(l),
{
    spec_trim(l.subrange(skip_char(l, 0, '#') + 1, l.len() as int))
}

/// Extract the title of a heading line, or `None` when the line is not a
/// heading.
pub fn heading_title(l: &str) -> (r: Option<String>)
    ensures
        r is Some <==> is_title_heading(l@),
        r matches Some(t) ==> t@ == title_text(l@),
{
    let n = l.unicode_len();
    let k = scan_char(l, 0, '#');
    if k < 1 || k > 6 || k + 2 > n || !is_space(l.get_char(k)) {
        return None;
    }
    let rest = l.substring_char(k + 1, n);
    let t = trim_str(rest);
    Some(t)
}

/// A title that itself looks like a page marker: it contains the word "page"
/// followed by a space (any case) and a decimal digit somewhere.
pub open spec fn is_marker_title(t: Option<Seq<char>>) -> bool {
    match t {
        None => false,
        Some(s) => contains_page_space(s) && contains_digit(s),
    }
}

/// "page " occurs in `s` under ASCII case folding.
pub open spec fn contains_page_space(s: Seq<char>) -> bool {
    exists|i: int| word_at_ci(s, i, seq!['p', 'a', 'g', 'e', ' '])
}

fn page_space_chars() -> (w: Vec<char>)
    ensures
        w@ == seq!['p', 'a', 'g', 'e', ' '],
{
    let mut w: Vec<char> = Vec::new();
    w.push('p');
    w.push('a');
    w.push('g');
    w.push('e');
    w.push(' ');
    proof {
        assert(w@ =~= seq!['p', 'a', 'g', 'e', ' ']);
    }
    w
}

fn find_page_space(s: &str) -> (r: bool)
    ensures
        r == contains_page_space(s@),
{
    let n = s.unicode_len();
    let w = page_space_chars();
    let mut i: usize = 0;
    while i < n
        invariant
            0 <= i <= n,
            n == s@.len(),
            w@ == seq!['p', 'a', 'g', 'e', ' '],
            forall|k: int| 0 <= k < i ==> !word_at_ci(s@, k, seq!['p', 'a', 'g', 'e', ' ']),
        decreases n - i,
    {
        if has_word_ci_at(s, i, &w) {
            return true;
        }
        i = i + 1;
    }
    proof {
        assert forall|k: int| !word_at_ci(s@, k, seq!['p', 'a', 'g', 'e', ' ']) by {
            if 0 <= k < n {
            } else {
            }
        }
    }
    false
}

/// Decide whether a title looks like a page marker, per `is_marker_title`.
pub fn check_marker_title(t: &Option<String>) -> (r: bool)
    ensures
        r == is_marker_title(t.deep_view()),
{
    match t {
        None => false,
        Some(s) => find_page_space(s.as_str()) && find_digit(s.as_str()),
    }
}

} // verus!
