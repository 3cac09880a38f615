//! Character classes, whitespace trimming, line splitting, joining, and
//! decimal rendering: the text groundwork under the parsing and splitting
//! cores. Every executable function is specified against a spec-level
//! model over `Seq<char>`.

use vstd::prelude::*;
use vstd::string::StrSliceExecFns;
use vstd::string::StringExecFns;

verus! {

/// ASCII whitespace, the class the boundary patterns treat as blank.
pub open spec fn is_space_char(c: char) -> bool {
    c == ' ' || c == '\t' || c == '\n' || c == '\r' || c == '\x0b' || c == '\x0c'
}

/// ASCII decimal digit.
pub open spec fn is_digit_char(c: char) -> bool {
    48 <= c as u32 && c as u32 <= 57
}

/// `c` reads as the lowercase letter `l` under ASCII case folding
/// (`l` is expected to be lowercase already).
pub open spec fn lowers_to(c: char, l: char) -> bool {
    c == l || (65 <= c as u32 && c as u32 <= 90 && c as u32 + 32 == l as u32)
}

pub fn is_space(c: char) -> (r: bool)
    ensures
        r == is_space_char(c),
{
    c == ' ' || c == '\t' || c == '\n' || c == '\r' || c == '\x0b' || c == '\x0c'
}

pub fn is_digit(c: char) -> (r: bool)
    ensures
        r == is_digit_char(c),
{
    let u = c as u32;
    48 <= u && u <= 57
}

pub fn char_lowers_to(c: char, l: char) -> (r: bool)
    ensures
        r == lowers_to(c, l),
{
    let u = c as u32;
    c == l || (65 <= u && u <= 90 && u + 32 == l as u32)
}

/// First index at or after `i` whose character is not whitespace, or the
/// length of `s` if only whitespace follows.
pub open spec fn skip_spaces(s: Seq<char>, i: int) -> int
    decreases s.len() - i,
{
    if i < 0 || i >= s.len() || !is_space_char(s[i]) {
        i
    } else {
        skip_spaces(s, i + 1)
    }
}

/// First index at or after `i` whose character is not a decimal digit.
pub open spec fn skip_digits(s: Seq<char>, i: int) -> int
    decreases s.len() - i,
{
    if i < 0 || i >= s.len() || !is_digit_char(s[i]) {
        i
    } else {
        skip_digits(s, i + 1)
    }
}

/// First index at or after `i` whose character is not `c`.
pub open spec fn skip_char(s: Seq<char>, i: int, c: char) -> int
    decreases s.len() - i,
{
    if i < 0 || i >= s.len() || s[i] != c {
        i
    } else {
        skip_char(s, i + 1, c)
    }
}

/// Executable scan matching `skip_spaces`.
pub fn scan_spaces(s: &str, i: usize) -> (r: usize)
    requires
        i <= s@.len(),
    ensures
        r == skip_spaces(s@, i as int),
        i <= r <= s@.len(),
{
    let n = s.unicode_len();
    let mut j = i;
    while j < n && is_space(s.get_char(j))
        invariant
            i <= j <= n,
            n == s@.len(),
            skip_spaces(s@, i as int) == skip_spaces(s@, j as int),
        decreases n - j,
    {
        j = j + 1;
    }
    j
}

/// Executable scan matching `skip_digits`.
pub fn scan_digits(s: &str, i: usize) -> (r: usize)
    requires
        i <= s@.len(),
    ensures
        r == skip_digits(s@, i as int),
        i <= r <= s@.len(),
{
    let n = s.unicode_len();
    let mut j = i;
    while j < n && is_digit(s.get_char(j))
        invariant
            i <= j <= n,
            n == s@.len(),
            skip_digits(s@, i as int) == skip_digits(s@, j as int),
        decreases n - j,
    {
        j = j + 1;
    }
    j
}

/// Executable scan matching `skip_char`.
pub fn scan_char(s: &str, i: usize, c: char) -> (r: usize)
    requires
        i <= s@.len(),
    ensures
        r == skip_char(s@, i as int, c),
        i <= r <= s@.len(),
{
    let n = s.unicode_len();
    let mut j = i;
    while j < n && s.get_char(j) == c
        invariant
            i <= j <= n,
            n == s@.len(),
            skip_char(s@, i as int, c) == skip_char(s@, j as int, c),
        decreases n - j,
    {
        j = j + 1;
    }
    j
}

/// The word `w` (given in lowercase) occurs at index `i` of `s` under ASCII
/// case folding.
pub open spec fn word_at_ci(s: Seq<char>, i: int, w: Seq<char>) -> bool {
    &&& 0 <= i
    &&& i + w.len() <= s.len()
    &&& forall|j: int| 0 <= j < w.len() ==> lowers_to(s[i + j], w[j])
}

/// The word `w` occurs at index `i` of `s`, compared exactly.
pub open spec fn word_at(s: Seq<char>, i: int, w: Seq<char>) -> bool {
    &&& 0 <= i
    &&& i + w.len() <= s.len()
    &&& forall|j: int| 0 <= j < w.len() ==> s[i + j] == w[j]
}

/// Executable check for `word_at_ci`; the word is passed as a character
/// vector so its view is directly available.
pub fn has_word_ci_at(s: &str, i: usize, w: &Vec<char>) -> (r: bool)
    requires
        i <= s@.len(),
    ensures
        r == word_at_ci(s@, i as int, w@),
{
    let n = s.unicode_len();
    if n - i < w.len() {
        return false;
    }
    let mut j: usize = 0;
    while j < w.len()
        invariant
            0 <= j <= w@.len(),
            i + w@.len() <= s@.len(),
            n == s@.len(),
            forall|k: int| 0 <= k < j ==> lowers_to(s@[i + k], w@[k]),
        decreases w@.len() - j,
    {
        if !char_lowers_to(s.get_char(i + j), w[j]) {
            return false;
        }
        j = j + 1;
    }
    true
}

/// Executable check for `word_at`.
pub fn has_word_at(s: &str, i: usize, w: &Vec<char>) -> (r: bool)
    requires
        i <= s@.len(),
    ensures
        r == word_at(s@, i as int, w@),
{
    let n = s.unicode_len();
    if n - i < w.len() {
        return false;
    }
    let mut j: usize = 0;
    while j < w.len()
        invariant
            0 <= j <= w@.len(),
            i + w@.len() <= s@.len(),
            n == s@.len(),
            forall|k: int| 0 <= k < j ==> s@[i + k] == w@[k],
        decreases w@.len() - j,
    {
        if s.get_char(i + j) != w[j] {
            return false;
        }
        j = j + 1;
    }
    true
}

/// `s` contains an ASCII decimal digit somewhere.
pub open spec fn contains_digit(s: Seq<char>) -> bool {
    exists|i: int| 0 <= i < s.len() && is_digit_char(s[i])
}

/// Executable check for `contains_digit`.
pub fn find_digit(s: &str) -> (r: bool)
    ensures
        r == contains_digit(s@),
{
    let n = s.unicode_len();
    let mut i: usize = 0;
    while i < n
        invariant
            0 <= i <= n,
            n == s@.len(),
            forall|k: int| 0 <= k < i ==> !is_digit_char(s@[k]),
        decreases n - i,
    {
        if is_digit(s.get_char(i)) {
            return true;
        }
        i = i + 1;
    }
    false
}

/// `s` with leading whitespace removed.
pub open spec fn trim_front(s: Seq<char>) -> Seq<char>
    decreases s.len(),
{
    if s.len() > 0 && is_space_char(s[0]) {
        trim_front(s.drop_first())
    } else {
        s
    }
}

/// `s` with trailing whitespace removed.
pub open spec fn trim_back(s: Seq<char>) -> Seq<char>
    decreases s.len(),
{
    if s.len() > 0 && is_space_char(s[s.len() - 1]) {
        trim_back(s.drop_last())
    } else {
        s
    }
}

/// `s` with whitespace removed from both ends.
pub open spec fn spec_trim(s: Seq<char>) -> Seq<char> {
    trim_back(trim_front(s))
}

proof fn lemma_trim_front_skip(s: Seq<char>, a: int)
    requires
        0 <= a <= s.len(),
        forall|j: int| 0 <= j < a ==> is_space_char(s[j]),
        a == s.len() || !is_space_char(s[a]),
    ensures
        trim_front(s) == s.skip(a),
    decreases a,
{
    if a == 0 {
        assert(s.skip(0) =~= s);
    } else {
        assert(is_space_char(s[0]));
        lemma_trim_front_skip(s.drop_first(), a - 1);
        assert(s.drop_first().skip(a - 1) =~= s.skip(a));
    }
}

proof fn lemma_trim_back_take(s: Seq<char>, b: int)
    requires
        0 <= b <= s.len(),
        forall|j: int| b <= j < s.len() ==> is_space_char(s[j]),
        b == 0 || !is_space_char(s[b - 1]),
    ensures
        trim_back(s) == s.take(b),
    decreases s.len() - b,
{
    if b == s.len() {
        assert(s.take(b) =~= s);
    } else {
        assert(is_space_char(s[s.len() - 1]));
        lemma_trim_back_take(s.drop_last(), b);
        assert(s.drop_last().take(b) =~= s.take(b));
    }
}

/// Trim whitespace from both ends of `s`, per `spec_trim`.
pub fn trim_str(s: &str) -> (r: String)
    ensures
        r@ == spec_trim(s@),
{
    let n = s.unicode_len();
    let mut a: usize = 0;
    while a < n && is_space(s.get_char(a))
        invariant
            0 <= a <= n,
            n == s@.len(),
            forall|j: int| 0 <= j < a ==> is_space_char(s@[j]),
        decreases n - a,
    {
        a = a + 1;
    }
    let mut b: usize = n;
    while b > a && is_space(s.get_char(b - 1))
        invariant
            a <= b <= n,
            n == s@.len(),
            forall|j: int| b <= j < n ==> is_space_char(s@[j]),
        decreases b,
    {
        b = b - 1;
    }
    proof {
        lemma_trim_front_skip(s@, a as int);
        if b == a {
            lemma_trim_back_take(s@.skip(a as int), 0);
        } else {
            lemma_trim_back_take(s@.skip(a as int), b - a);
        }
        assert(s@.skip(a as int).take(b - a) =~= s@.subrange(a as int, b as int));
    }
    let piece = s.substring_char(a, b);
    String::from_str(piece)
}

/// The lines joined with a single `'\n'` between consecutive lines.
pub open spec fn join_lines(ls: Seq<Seq<char>>) -> Seq<char>
    decreases ls.len(),
{
    if ls.len() == 0 {
        Seq::empty()
    } else if ls.len() == 1 {
        ls[0]
    } else {
        ls[0] + seq!['\n'] + join_lines(ls.drop_first())
    }
}

pub proof fn lemma_join_lines_push(ls: Seq<Seq<char>>, l: Seq<char>)
    ensures
        ls.len() == 0 ==> join_lines(ls.push(l)) == l,
        ls.len() > 0 ==> join_lines(ls.push(l)) == join_lines(ls) + seq!['\n'] + l,
    decreases ls.len(),
{
    if ls.len() == 0 {
        assert(ls.push(l)[0] =~= l);
    } else if ls.len() == 1 {
        assert(ls.push(l).drop_first() =~= seq![l]);
        assert(join_lines(seq![l]) == seq![l][0]);
        assert(ls.push(l)[0] == ls[0]);
        assert(join_lines(ls.push(l)) == ls[0] + seq!['\n'] + l);
    } else {
        lemma_join_lines_push(ls.drop_first(), l);
        assert(ls.push(l).drop_first() =~= ls.drop_first().push(l));
        assert(join_lines(ls) + seq!['\n'] + l =~= ls[0] + seq!['\n'] + (join_lines(
            ls.drop_first(),
        ) + seq!['\n'] + l));
    }
}

/// Index of the first `'\n'` in `s`, or the length of `s` if none occurs.
pub open spec fn line_break_at(s: Seq<char>) -> int
    decreases s.len(),
{
    if s.len() == 0 {
        0
    } else if s[0] == '\n' {
        0
    } else {
        1 + line_break_at(s.drop_first())
    }
}

pub proof fn lemma_line_break_at(s: Seq<char>)
    ensures
        0 <= line_break_at(s) <= s.len(),
        line_break_at(s) < s.len() ==> s[line_break_at(s)] == '\n',
        forall|j: int| 0 <= j < line_break_at(s) ==> s[j] != '\n',
    decreases s.len(),
{
    if s.len() > 0 && s[0] != '\n' {
        lemma_line_break_at(s.drop_first());
        assert forall|j: int| 0 <= j < line_break_at(s) implies s[j] != '\n' by {
            if j > 0 {
                assert(s.drop_first()[j - 1] != '\n');
            }
        }
    }
}

pub proof fn lemma_line_break_at_is(s: Seq<char>, e: int)
    requires
        0 <= e <= s.len(),
        forall|j: int| 0 <= j < e ==> s[j] != '\n',
        e == s.len() || s[e] == '\n',
    ensures
        line_break_at(s) == e,
    decreases e,
{
    if e == 0 {
    } else {
        lemma_line_break_at_is(s.drop_first(), e - 1);
    }
}

/// The line sequence of a text: pieces split at `'\n'`, each piece losing one
/// trailing `'\r'` when the `'\r'` stood directly before the `'\n'`; a final
/// piece without a terminating `'\n'` is kept as it stands, and a text ending
/// in `'\n'` yields no empty final line.
pub open spec fn spec_lines(s: Seq<char>) -> Seq<Seq<char>>
    decreases s.len(),
{
    if s.len() == 0 {
        Seq::empty()
    } else {
        let e = line_break_at(s);
        if e < 0 || e >= s.len() {
            seq![s]
        } else {
            let raw = s.take(e);
            let line = if raw.len() > 0 && raw[raw.len() - 1] == '\r' {
                raw.drop_last()
            } else {
                raw
            };
            seq![line] + spec_lines(s.skip(e + 1))
        }
    }
}

/// Split a text into its lines, per `spec_lines`.
pub fn split_lines(content: &str) -> (r: Vec<String>)
    ensures
        r.deep_view() == spec_lines(content@),
{
    let n = content.unicode_len();
    let mut lines: Vec<String> = Vec::new();
    let mut pos: usize = 0;
    proof {
        assert(content@.skip(0) =~= content@);
    }
    while pos < n
        invariant
            0 <= pos <= n,
            n == content@.len(),
            spec_lines(content@) == lines.deep_view() + spec_lines(content@.skip(pos as int)),
        decreases n - pos,
    {
        let ghost suffix = content@.skip(pos as int);
        let mut e: usize = pos;
        while e < n && content.get_char(e) != '\n'
            invariant
                pos <= e <= n,
                n == content@.len(),
                forall|j: int| pos <= j < e ==> content@[j] != '\n',
            decreases n - e,
        {
            e = e + 1;
        }
        proof {
            assert forall|j: int| 0 <= j < e - pos implies suffix[j] != '\n' by {
                assert(suffix[j] == content@[pos + j]);
            }
            if e < n {
                assert(suffix[e - pos] == content@[e as int]);
            }
            lemma_line_break_at_is(suffix, e - pos);
        }
        let cut = if e > pos && e < n && content.get_char(e - 1) == '\r' {
            e - 1
        } else {
            e
        };
        let ghost prev_dv = lines.deep_view();
        let ghost line_val = content@.subrange(pos as int, cut as int);
        let piece = content.substring_char(pos, cut);
        let owned = String::from_str(piece);
        lines.push(owned);
        proof {
            assert(lines.deep_view() =~= prev_dv.push(line_val));
            let raw = suffix.take(e - pos);
            assert(raw =~= content@.subrange(pos as int, e as int));
            if e < n {
                let line = if raw.len() > 0 && raw[raw.len() - 1] == '\r' {
                    raw.drop_last()
                } else {
                    raw
                };
                assert(line =~= line_val);
                assert(spec_lines(suffix) == seq![line] + spec_lines(suffix.skip(e - pos + 1)));
                assert(suffix.skip(e - pos + 1) =~= content@.skip(e + 1));
                assert(prev_dv + (seq![line_val] + spec_lines(content@.skip(e + 1)))
                    =~= prev_dv.push(line_val) + spec_lines(content@.skip(e + 1)));
            } else {
                assert(line_val =~= suffix);
                assert(spec_lines(suffix) == seq![suffix]);
                assert(spec_lines(content@.skip(n as int)) =~= Seq::<Seq<char>>::empty());
                assert(prev_dv + seq![line_val] =~= prev_dv.push(line_val) + spec_lines(
                    content@.skip(n as int),
                ));
            }
        }
        if e < n {
            pos = e + 1;
        } else {
            pos = n;
        }
    }
    proof {
        assert(spec_lines(content@.skip(pos as int)) =~= Seq::<Seq<char>>::empty());
        assert(lines.deep_view() + Seq::<Seq<char>>::empty() =~= lines.deep_view());
    }
    lines
}

/// Index of the last occurrence of `c` in `s`, or `-1` if none.
pub open spec fn last_index_of(s: Seq<char>, c: char) -> int
    decreases s.len(),
{
    if s.len() == 0 {
        -1
    } else if s[s.len() - 1] == c {
        s.len() - 1
    } else {
        last_index_of(s.drop_last(), c)
    }
}

proof fn lemma_last_index_of_is(s: Seq<char>, c: char, k: int)
    requires
        -1 <= k < s.len(),
        k >= 0 ==> s[k] == c,
        forall|j: int| k < j < s.len() ==> s[j] != c,
    ensures
        last_index_of(s, c) == k,
    decreases s.len(),
{
    if s.len() == 0 {
    } else if s[s.len() - 1] == c {
        assert(k == s.len() - 1);
    } else {
        assert(k < s.len() - 1);
        lemma_last_index_of_is(s.drop_last(), c, k);
    }
}

/// Scan for the last occurrence of `c`, per `last_index_of`: the returned
/// flag says whether any occurrence exists, and the index is meaningful only
/// then.
pub fn rfind_char(s: &str, c: char) -> (r: (bool, usize))
    ensures
        r.0 ==> r.1 < s@.len() && last_index_of(s@, c) == r.1 as int,
        !r.0 ==> last_index_of(s@, c) == -1,
{
    let n = s.unicode_len();
    let mut k = n;
    while k > 0 && s.get_char(k - 1) != c
        invariant
            0 <= k <= n,
            n == s@.len(),
            forall|j: int| k <= j < n ==> s@[j] != c,
        decreases k,
    {
        k = k - 1;
    }
    if k == 0 {
        proof {
            lemma_last_index_of_is(s@, c, -1);
        }
        (false, 0)
    } else {
        proof {
            lemma_last_index_of_is(s@, c, k - 1);
        }
        (true, k - 1)
    }
}

/// Decimal digit character for a value below ten.
pub open spec fn spec_digit_char(d: nat) -> char {
    if d == 0 {
        '0'
    } else if d == 1 {
        '1'
    } else if d == 2 {
        '2'
    } else if d == 3 {
        '3'
    } else if d == 4 {
        '4'
    } else if d == 5 {
        '5'
    } else if d == 6 {
        '6'
    } else if d == 7 {
        '7'
    } else if d == 8 {
        '8'
    } else {
        '9'
    }
}

/// Decimal rendering of `n`, most significant digit first, no leading zeros
/// (a single `'0'` for zero).
pub open spec fn spec_decimal(n: nat) -> Seq<char>
    decreases n,
{
    if n < 10 {
        seq![spec_digit_char(n)]
    } else {
        spec_decimal(n / 10).push(spec_digit_char(n % 10))
    }
}

fn digit_to_char(d: usize) -> (c: char)
    requires
        d < 10,
    ensures
        c == spec_digit_char(d as nat),
{
    if d == 0 {
        '0'
    } else if d == 1 {
        '1'
    } else if d == 2 {
        '2'
    } else if d == 3 {
        '3'
    } else if d == 4 {
        '4'
    } else if d == 5 {
        '5'
    } else if d == 6 {
        '6'
    } else if d == 7 {
        '7'
    } else if d == 8 {
        '8'
    } else {
        '9'
    }
}

/// Relies on `String::push` of std: appends exactly one character at the end
/// of the string.
#[verifier::external_body]
pub(crate) fn push_char(s: &mut String, c: char)
    ensures
        final(s)@ == old(s)@.push(c),
{
    s.push(c);
}

/// Render `n` in decimal, per `spec_decimal`.
pub fn usize_to_string(n: usize) -> (s: String)
    ensures
        s@ == spec_decimal(n as nat),
    decreases n,
{
    if n < 10 {
        let mut s = String::new();
        push_char(&mut s, digit_to_char(n));
        proof {
            assert(s@ =~= seq![spec_digit_char(n as nat)]);
        }
        s
    } else {
        let mut s = usize_to_string(n / 10);
        push_char(&mut s, digit_to_char(n % 10));
        s
    }
}

/// `k` zero characters.
pub open spec fn spec_zeros(k: nat) -> Seq<char>
    decreases k,
{
    if k == 0 {
        Seq::empty()
    } else {
        spec_zeros((k - 1) as nat).push('0')
    }
}

/// `s` left-padded with `'0'` up to `width` characters; `s` unchanged when
/// already that wide.
pub open spec fn spec_pad_left(s: Seq<char>, width: nat) -> Seq<char> {
    if s.len() >= width {
        s
    } else {
        spec_zeros((width - s.len()) as nat) + s
    }
}

/// Left-pad `s` with zeros to `width` characters, per `spec_pad_left`.
pub fn pad_left_zeros(s: &str, width: usize) -> (r: String)
    ensures
        r@ == spec_pad_left(s@, width as nat),
{
    let len = s.unicode_len();
    if len >= width {
        return String::from_str(s);
    }
    let mut r = String::new();
    let mut k: usize = 0;
    proof {
        assert(r@ =~= spec_zeros(0));
    }
    while k < width - len
        invariant
            0 <= k <= width - len,
            len == s@.len(),
            len < width,
            r@ == spec_zeros(k as nat),
        decreases width - len - k,
    {
        push_char(&mut r, '0');
        k = k + 1;
    }
    r.append(s);
    r
}

} // verus!
