//! The parsing core: page-boundary detection over a document's lines, page
//! extraction between consecutive boundaries, title extraction, and the merge
//! pass that folds spuriously small pages into their predecessor.

use vstd::prelude::*;
use vstd::string::StringExecFns;

use crate::error::MarkdownSplitterError;
use crate::patterns::check_explicit_marker;
use crate::patterns::check_fallback_break;
use crate::patterns::check_marker_title;
use crate::patterns::heading_title;
use crate::patterns::is_explicit_marker;
use crate::patterns::is_fallback_break;
use crate::patterns::is_marker_title;
use crate::patterns::is_title_heading;
use crate::patterns::title_text;
use crate::text::join_lines;
use crate::text::lemma_join_lines_push;
use crate::text::push_char;
use crate::text::spec_lines;
use crate::text::split_lines;
use crate::types::DocumentMetadata;
use crate::types::MarkdownDocument;
use crate::types::MarkdownPage;
use crate::types::PageView;
use crate::types::copy_page;
use crate::types::pages_view;

verus! {

/// A sequence of `usize` as mathematical integers.
pub open spec fn usize_seq(s: Seq<usize>) -> Seq<int> {
    s.map_values(|x: usize| x as int)
}

/// Some line of the document belongs to the explicit page-marker family.
pub open spec fn has_explicit_marker(lines: Seq<Seq<char>>, custom: Option<Seq<char>>) -> bool {
    exists|k: int| 0 <= k < lines.len() && is_explicit_marker(lines[k], custom)
}

/// The boundary rule that applies to line `i`: when any line of the document
/// carries an explicit page marker, only the explicit family counts; otherwise
/// only the fallback family counts. The choice is made once per document.
pub open spec fn line_is_break(lines: Seq<Seq<char>>, custom: Option<Seq<char>>, i: int) -> bool {
    if has_explicit_marker(lines, custom) {
        is_explicit_marker(lines[i], custom)
    } else {
        is_fallback_break(lines[i], custom is Some)
    }
}

/// Indices in `[1, n)` whose line carries an explicit page marker, ascending.
pub open spec fn explicit_break_indices(
    lines: Seq<Seq<char>>,
    custom: Option<Seq<char>>,
    n: int,
) -> Seq<int>
    decreases n,
{
    if n <= 1 {
        Seq::empty()
    } else {
        explicit_break_indices(lines, custom, n - 1) + if is_explicit_marker(
            lines[n - 1],
            custom,
        ) {
            seq![n - 1]
        } else {
            Seq::empty()
        }
    }
}

/// Indices in `[1, n)` whose line carries a fallback boundary, ascending.
pub open spec fn fallback_break_indices(
    lines: Seq<Seq<char>>,
    custom_present: bool,
    n: int,
) -> Seq<int>
    decreases n,
{
    if n <= 1 {
        Seq::empty()
    } else {
        fallback_break_indices(lines, custom_present, n - 1) + if is_fallback_break(
            lines[n - 1],
            custom_present,
        ) {
            seq![n - 1]
        } else {
            Seq::empty()
        }
    }
}

/// The boundary sequence of a document: it starts at `0`, ends at the line
/// count, and lists in between every line index at which the applicable
/// pattern family fires (a match at line `0` adds no second entry).
pub open spec fn spec_page_breaks(lines: Seq<Seq<char>>, custom: Option<Seq<char>>) -> Seq<int> {
    if lines.len() == 0 {
        seq![0int]
    } else {
        let mid = if has_explicit_marker(lines, custom) {
            explicit_break_indices(lines, custom, lines.len() as int)
        } else {
            fallback_break_indices(lines, custom is Some, lines.len() as int)
        };
        seq![0int] + mid + seq![lines.len() as int]
    }
}

proof fn lemma_explicit_indices_empty(lines: Seq<Seq<char>>, custom: Option<Seq<char>>, n: int)
    requires
        forall|k: int| 0 <= k < n ==> !is_explicit_marker(lines[k], custom),
    ensures
        explicit_break_indices(lines, custom, n).len() == 0,
    decreases n,
{
    if n > 1 {
        lemma_explicit_indices_empty(lines, custom, n - 1);
    }
}

proof fn lemma_explicit_indices_wf(lines: Seq<Seq<char>>, custom: Option<Seq<char>>, n: int)
    ensures
        ({
            let s = explicit_break_indices(lines, custom, n);
            &&& forall|t: int| 0 <= t < s.len() ==> 1 <= #[trigger] s[t] <= n - 1
            &&& forall|t: int| 0 <= t < s.len() - 1 ==> #[trigger] s[t] < s[t + 1]
        }),
    decreases n,
{
    if n > 1 {
        lemma_explicit_indices_wf(lines, custom, n - 1);
        let prev = explicit_break_indices(lines, custom, n - 1);
        let s = explicit_break_indices(lines, custom, n);
        if is_explicit_marker(lines[n - 1], custom) {
            assert(s =~= prev.push(n - 1));
            assert forall|t: int| 0 <= t < s.len() - 1 implies #[trigger] s[t] < s[t + 1] by {
                if t + 1 < prev.len() {
                    assert(prev[t] < prev[t + 1]);
                } else {
                    assert(s[t] == prev[t] && s[t + 1] == n - 1);
                }
            }
        } else {
            assert(s =~= prev);
        }
    }
}

proof fn lemma_fallback_indices_wf(lines: Seq<Seq<char>>, custom_present: bool, n: int)
    ensures
        ({
            let s = fallback_break_indices(lines, custom_present, n);
            &&& forall|t: int| 0 <= t < s.len() ==> 1 <= #[trigger] s[t] <= n - 1
            &&& forall|t: int| 0 <= t < s.len() - 1 ==> #[trigger] s[t] < s[t + 1]
        }),
    decreases n,
{
    if n > 1 {
        lemma_fallback_indices_wf(lines, custom_present, n - 1);
        let prev = fallback_break_indices(lines, custom_present, n - 1);
        let s = fallback_break_indices(lines, custom_present, n);
        if is_fallback_break(lines[n - 1], custom_present) {
            assert(s =~= prev.push(n - 1));
            assert forall|t: int| 0 <= t < s.len() - 1 implies #[trigger] s[t] < s[t + 1] by {
                if t + 1 < prev.len() {
                    assert(prev[t] < prev[t + 1]);
                } else {
                    assert(s[t] == prev[t] && s[t + 1] == n - 1);
                }
            }
        } else {
            assert(s =~= prev);
        }
    }
}

/// The boundary sequence is well formed: it starts at `0`, ends at the line
/// count, stays within the document, and never decreases.
pub proof fn lemma_page_breaks_wf(lines: Seq<Seq<char>>, custom: Option<Seq<char>>)
    ensures
        ({
            let bs = spec_page_breaks(lines, custom);
            &&& bs.len() >= 1
            &&& bs[0] == 0
            &&& bs[bs.len() - 1] == lines.len()
            &&& breaks_nondecreasing(bs)
            &&& forall|t: int| 0 <= t < bs.len() ==> 0 <= #[trigger] bs[t] <= lines.len()
        }),
{
    let bs = spec_page_breaks(lines, custom);
    if lines.len() == 0 {
        assert(bs =~= seq![0int]);
    } else {
        let n = lines.len() as int;
        let mid = if has_explicit_marker(lines, custom) {
            explicit_break_indices(lines, custom, n)
        } else {
            fallback_break_indices(lines, custom is Some, n)
        };
        if has_explicit_marker(lines, custom) {
            lemma_explicit_indices_wf(lines, custom, n);
        } else {
            lemma_fallback_indices_wf(lines, custom is Some, n);
        }
        assert(bs =~= seq![0int] + mid + seq![n]);
        assert(bs.len() == mid.len() + 2);
        assert forall|t: int| 0 <= t < bs.len() implies 0 <= #[trigger] bs[t] <= lines.len() by {
            if t == 0 {
            } else if t <= mid.len() {
                assert(bs[t] == mid[t - 1]);
            } else {
                assert(bs[t] == n);
            }
        }
        assert forall|t: int| 0 <= t < bs.len() - 1 implies #[trigger] bs[t] <= bs[t + 1] by {
            if t == 0 {
                if mid.len() == 0 {
                    assert(bs[1] == n);
                } else {
                    assert(bs[1] == mid[0]);
                }
            } else if t < mid.len() {
                assert(bs[t] == mid[t - 1] && bs[t + 1] == mid[t]);
            } else {
                assert(bs[t] == mid[t - 1] && bs[t + 1] == n);
            }
        }
    }
}

/// The title of a page given as a line sequence: the trimmed text of the
/// first heading among the first ten lines, scanned from line `j` on.
pub open spec fn title_scan(ls: Seq<Seq<char>>, j: int) -> Option<Seq<char>>
    decreases 10 - j,
{
    if j < 0 || j >= 10 || j >= ls.len() {
        None
    } else if is_title_heading(ls[j]) {
        Some(title_text(ls[j]))
    } else {
        title_scan(ls, j + 1)
    }
}

/// The title of a page: only the first ten lines are scanned.
pub open spec fn spec_title_of(ls: Seq<Seq<char>>) -> Option<Seq<char>> {
    title_scan(ls, 0)
}

/// The page cut from the window `[s, e)` of the line sequence: its content is
/// the newline-joined text of the lines, clipped at the document's end, and
/// its title comes from the window's first ten lines. `num` is the 1-based
/// window index, the page's number before renumbering.
pub open spec fn window_page(lines: Seq<Seq<char>>, s: int, e: int, num: int) -> PageView {
    let ae = if e < lines.len() {
        e
    } else {
        lines.len() as int
    };
    PageView {
        number: num,
        content: join_lines(lines.subrange(s, ae)),
        title: spec_title_of(lines.subrange(s, ae)),
        start_line: s,
        end_line: ae,
    }
}

/// The pages cut between consecutive boundaries, from window `j` on: a window
/// starting at or beyond the end of the document stops the extraction, and a
/// window with no lines in it is dropped silently.
pub open spec fn raw_pages_from(lines: Seq<Seq<char>>, breaks: Seq<int>, j: int) -> Seq<PageView>
    decreases breaks.len() - j,
{
    if j < 0 || j + 1 >= breaks.len() {
        Seq::empty()
    } else {
        let s = breaks[j];
        let e = breaks[j + 1];
        if s >= lines.len() {
            Seq::empty()
        } else {
            let ae = if e < lines.len() {
                e
            } else {
                lines.len() as int
            };
            if ae <= s {
                raw_pages_from(lines, breaks, j + 1)
            } else {
                seq![window_page(lines, s, e, j + 1)] + raw_pages_from(lines, breaks, j + 1)
            }
        }
    }
}

/// A page small enough to be a false boundary: at most ten lines, and its
/// title, if any, does not itself look like a page marker.
pub open spec fn should_merge(p: PageView) -> bool {
    p.end_line - p.start_line <= 10 && !is_marker_title(p.title)
}

/// `p` absorbed into its predecessor: the contents are joined with a blank
/// line, the predecessor's range is extended, and `p`'s title is discarded.
pub open spec fn merged_page(prev: PageView, p: PageView) -> PageView {
    PageView {
        number: prev.number,
        content: prev.content + seq!['\n', '\n'] + p.content,
        title: prev.title,
        start_line: prev.start_line,
        end_line: p.end_line,
    }
}

/// The merge pass over the first `n` pages: a mergeable page is folded into
/// the last accepted page; the first page is always accepted.
pub open spec fn merge_pages_prefix(ps: Seq<PageView>, n: int) -> Seq<PageView>
    decreases n,
{
    if n <= 0 {
        Seq::empty()
    } else {
        let acc = merge_pages_prefix(ps, n - 1);
        let p = ps[n - 1];
        if should_merge(p) && acc.len() > 0 {
            acc.update(acc.len() - 1, merged_page(acc[acc.len() - 1], p))
        } else {
            acc.push(p)
        }
    }
}

/// The merge pass over a page sequence.
pub open spec fn spec_merge(ps: Seq<PageView>) -> Seq<PageView> {
    merge_pages_prefix(ps, ps.len() as int)
}

/// Pages renumbered contiguously from one.
pub open spec fn spec_renumber(ps: Seq<PageView>) -> Seq<PageView> {
    Seq::new(ps.len(), |i: int| PageView { number: i + 1, ..ps[i] })
}

/// What extraction produces from a line sequence and its boundaries: the raw
/// window pages, merged, renumbered.
pub open spec fn spec_extract_pages(lines: Seq<Seq<char>>, breaks: Seq<int>) -> Seq<PageView> {
    spec_renumber(spec_merge(raw_pages_from(lines, breaks, 0)))
}

/// Boundary sequences are consumed in ascending order.
pub open spec fn breaks_nondecreasing(bs: Seq<int>) -> bool {
    forall|j: int| 0 <= j < bs.len() - 1 ==> #[trigger] bs[j] <= bs[j + 1]
}

/// Join the lines of the window `[s, ae)` with single newlines.
fn join_lines_range(lines: &Vec<String>, s: usize, ae: usize) -> (r: String)
    requires
        s <= ae <= lines@.len(),
    ensures
        r@ == join_lines(lines.deep_view().subrange(s as int, ae as int)),
{
    let ghost ldv = lines.deep_view();
    let mut content = String::new();
    let mut i = s;
    proof {
        assert(ldv.subrange(s as int, s as int) =~= Seq::<Seq<char>>::empty());
    }
    while i < ae
        invariant
            s <= i <= ae <= lines@.len(),
            ldv == lines.deep_view(),
            content@ == join_lines(ldv.subrange(s as int, i as int)),
        decreases ae - i,
    {
        let ghost sub_i = ldv.subrange(s as int, i as int);
        if i > s {
            push_char(&mut content, '\n');
        }
        let line = &lines[i];
        content.append(line.as_str());
        proof {
            assert(line@ == ldv[i as int]);
            assert(ldv.subrange(s as int, i + 1) =~= sub_i.push(ldv[i as int]));
            lemma_join_lines_push(sub_i, ldv[i as int]);
            assert(content@ =~= join_lines(ldv.subrange(s as int, i + 1)));
        }
        i = i + 1;
    }
    content
}

/// Extract the title of the window `[s, ae)`, per `spec_title_of`.
fn extract_title(lines: &Vec<String>, s: usize, ae: usize) -> (r: Option<String>)
    requires
        s <= ae <= lines@.len(),
    ensures
        r.deep_view() == spec_title_of(lines.deep_view().subrange(s as int, ae as int)),
{
    let ghost sub = lines.deep_view().subrange(s as int, ae as int);
    let limit = if ae - s < 10 {
        ae - s
    } else {
        10
    };
    let mut j: usize = 0;
    while j < limit
        invariant
            0 <= j <= limit,
            limit <= ae - s,
            ae - s < 10 ==> limit == ae - s,
            ae - s >= 10 ==> limit == 10,
            s <= ae <= lines@.len(),
            sub == lines.deep_view().subrange(s as int, ae as int),
            title_scan(sub, 0) == title_scan(sub, j as int),
        decreases limit - j,
    {
        let line = &lines[s + j];
        proof {
            assert(sub[j as int] == line@);
        }
        match heading_title(line.as_str()) {
            Some(t) => {
                return Some(t);
            },
            None => {
                proof {
                    assert(title_scan(sub, j as int) == title_scan(sub, j + 1));
                }
            },
        }
        j = j + 1;
    }
    proof {
        assert(title_scan(sub, j as int) is None);
    }
    None
}

fn copy_usize_vec(v: &Vec<usize>) -> (r: Vec<usize>)
    ensures
        r@ == v@,
{
    let mut r: Vec<usize> = Vec::new();
    let mut i: usize = 0;
    while i < v.len()
        invariant
            0 <= i <= v@.len(),
            r@ == v@.subrange(0, i as int),
        decreases v@.len() - i,
    {
        r.push(v[i]);
        proof {
            assert(v@.subrange(0, i + 1) =~= v@.subrange(0, i as int).push(v@[i as int]));
        }
        i = i + 1;
    }
    proof {
        assert(v@.subrange(0, v@.len() as int) =~= v@);
    }
    r
}

/// The parser: it holds the one piece of configuration the pattern cascade
/// takes, an optional custom boundary marker that is matched literally at the
/// start of a line.
pub struct MarkdownParser {
    custom_page_marker: Option<String>,
}

impl MarkdownParser {
    /// The configured custom marker, as a sequence of characters.
    pub closed spec fn marker(&self) -> Option<Seq<char>> {
        self.custom_page_marker.deep_view()
    }

    /// Build a parser, optionally with a custom boundary marker. Every marker
    /// text is acceptable, so this always succeeds; the fallible signature is
    /// part of the public interface.
    pub fn new(custom_page_marker: Option<&str>) -> (r: Result<Self, MarkdownSplitterError>)
        ensures
            r matches Ok(p) && p.marker() == custom_page_marker.deep_view(),
    {
        let m: Option<String> = match custom_page_marker {
            Some(s) => Some(String::from_str(s)),
            None => None,
        };
        Ok(MarkdownParser { custom_page_marker: m })
    }

    /// Scan the lines for page boundaries, per `spec_page_breaks`: one pass
    /// over the explicit page-marker family; only when it matched nowhere, a
    /// second pass over the fallback family.
    pub fn find_page_breaks(&self, lines: &Vec<String>) -> (breaks: Vec<usize>)
        ensures
            usize_seq(breaks@) == spec_page_breaks(lines.deep_view(), self.marker()),
    {
        let ghost ldv = lines.deep_view();
        let ghost cv = self.marker();
        let n = lines.len();
        let mut breaks: Vec<usize> = Vec::new();
        breaks.push(0);
        proof {
            assert(usize_seq(breaks@) =~= seq![0int] + explicit_break_indices(ldv, cv, 0));
        }
        let mut found = false;
        let mut i: usize = 0;
        while i < n
            invariant
                0 <= i <= n,
                n == ldv.len(),
                lines.deep_view() == ldv,
                self.marker() == cv,
                usize_seq(breaks@) == seq![0int] + explicit_break_indices(ldv, cv, i as int),
                breaks@.len() >= 1,
                breaks@[0] == 0,
                forall|j: int| 1 <= j < breaks@.len() ==> 1 <= #[trigger] breaks@[j] < i,
                found <==> exists|k: int| 0 <= k < i && is_explicit_marker(ldv[k], cv),
            decreases n - i,
        {
            let line = &lines[i];
            if check_explicit_marker(line.as_str(), &self.custom_page_marker) {
                proof {
                    assert(ldv[i as int] == line@);
                }
                found = true;
                let last = breaks[breaks.len() - 1];
                if last != i {
                    let ghost prev = breaks@;
                    breaks.push(i);
                    proof {
                        assert(usize_seq(breaks@) =~= usize_seq(prev).push(i as int));
                        assert(explicit_break_indices(ldv, cv, i + 1)
                            == explicit_break_indices(ldv, cv, i as int) + seq![i as int]);
                        assert(seq![0int] + explicit_break_indices(ldv, cv, i as int) + seq![
                            i as int,
                        ] =~= seq![0int] + explicit_break_indices(ldv, cv, i + 1));
                    }
                } else {
                    proof {
                        assert(i == 0);
                        assert(explicit_break_indices(ldv, cv, 1) =~= explicit_break_indices(
                            ldv,
                            cv,
                            0,
                        ));
                    }
                }
            } else {
                proof {
                    assert(ldv[i as int] == line@);
                    assert(explicit_break_indices(ldv, cv, i + 1) =~= explicit_break_indices(
                        ldv,
                        cv,
                        i as int,
                    ));
                }
            }
            i = i + 1;
        }
        if !found {
            proof {
                lemma_explicit_indices_empty(ldv, cv, n as int);
                assert(usize_seq(breaks@) =~= seq![0int]);
                assert(usize_seq(breaks@) =~= seq![0int] + fallback_break_indices(
                    ldv,
                    cv is Some,
                    0,
                ));
            }
            let mut t: usize = 0;
            while t < n
                invariant
                    0 <= t <= n,
                    n == ldv.len(),
                    lines.deep_view() == ldv,
                    self.marker() == cv,
                    usize_seq(breaks@) == seq![0int] + fallback_break_indices(
                        ldv,
                        cv is Some,
                        t as int,
                    ),
                    breaks@.len() >= 1,
                    breaks@[0] == 0,
                    forall|j: int| 1 <= j < breaks@.len() ==> 1 <= #[trigger] breaks@[j] < t,
                decreases n - t,
            {
                let line = &lines[t];
                let custom_present = match &self.custom_page_marker {
                    Some(_) => true,
                    None => false,
                };
                if check_fallback_break(line.as_str(), custom_present) {
                    proof {
                        assert(ldv[t as int] == line@);
                    }
                    let last = breaks[breaks.len() - 1];
                    if last != t {
                        let ghost prev = breaks@;
                        breaks.push(t);
                        proof {
                            assert(usize_seq(breaks@) =~= usize_seq(prev).push(t as int));
                            assert(fallback_break_indices(ldv, cv is Some, t + 1)
                                == fallback_break_indices(ldv, cv is Some, t as int) + seq![
                                t as int,
                            ]);
                            assert(seq![0int] + fallback_break_indices(ldv, cv is Some, t as int)
                                + seq![t as int] =~= seq![0int] + fallback_break_indices(
                                ldv,
                                cv is Some,
                                t + 1,
                            ));
                        }
                    } else {
                        proof {
                            assert(t == 0);
                            assert(fallback_break_indices(ldv, cv is Some, 1)
                                =~= fallback_break_indices(ldv, cv is Some, 0));
                        }
                    }
                } else {
                    proof {
                        assert(ldv[t as int] == line@);
                        assert(fallback_break_indices(ldv, cv is Some, t + 1)
                            =~= fallback_break_indices(ldv, cv is Some, t as int));
                    }
                }
                t = t + 1;
            }
        }
        let last = breaks[breaks.len() - 1];
        if last != n {
            let ghost prev = breaks@;
            breaks.push(n);
            proof {
                assert(usize_seq(breaks@) =~= usize_seq(prev).push(n as int));
            }
        }
        proof {
            if n == 0 {
                assert(usize_seq(breaks@) =~= seq![0int]);
            } else {
                let mid = if has_explicit_marker(ldv, cv) {
                    explicit_break_indices(ldv, cv, n as int)
                } else {
                    fallback_break_indices(ldv, cv is Some, n as int)
                };
                assert(usize_seq(breaks@) =~= seq![0int] + mid + seq![n as int]);
            }
        }
        breaks
    }

    /// Slice pages out between consecutive boundaries, merge the spuriously
    /// small ones into their predecessor, and renumber; an extraction that
    /// yields no page at all is a parsing error.
    pub fn extract_pages(&self, lines: &Vec<String>, page_breaks: &Vec<usize>) -> (r: Result<
        Vec<MarkdownPage>,
        MarkdownSplitterError,
    >)
        requires
            breaks_nondecreasing(usize_seq(page_breaks@)),
        ensures
            ({
                let raw = raw_pages_from(lines.deep_view(), usize_seq(page_breaks@), 0);
                &&& raw.len() == 0 ==> (r matches Err(e) && e matches
                    MarkdownSplitterError::PageParsing { reason } && reason@
                    == "No valid pages found in document"@)
                &&& raw.len() > 0 ==> (r matches Ok(pages) && pages_view(pages@)
                    == spec_extract_pages(lines.deep_view(), usize_seq(page_breaks@)))
            }),
    {
        let ghost ldv = lines.deep_view();
        let ghost ib = usize_seq(page_breaks@);
        let n = lines.len();
        let mut pages: Vec<MarkdownPage> = Vec::new();
        let mut j: usize = 0;
        proof {
            assert(pages_view(pages@) =~= Seq::<PageView>::empty());
            assert(raw_pages_from(ldv, ib, 0) =~= pages_view(pages@) + raw_pages_from(ldv, ib, 0));
        }
        let nb = page_breaks.len();
        while nb >= 1 && j < nb - 1 && page_breaks[j] < n
            invariant
                0 <= j,
                nb == page_breaks@.len(),
                nb >= 1 ==> j <= nb - 1,
                nb == 0 ==> j == 0,
                n == ldv.len(),
                ldv == lines.deep_view(),
                ib == usize_seq(page_breaks@),
                raw_pages_from(ldv, ib, 0) == pages_view(pages@) + raw_pages_from(
                    ldv,
                    ib,
                    j as int,
                ),
                forall|t: int|
                    0 <= t < pages@.len() ==> (#[trigger] pages@[t]).start_line
                        < pages@[t].end_line,
            decreases nb - j,
        {
            let s = page_breaks[j];
            let e = page_breaks[j + 1];
            let ae = if e < n {
                e
            } else {
                n
            };
            proof {
                assert(ib[j as int] == s as int);
                assert(ib[j + 1] == e as int);
            }
            if ae > s {
                let content = join_lines_range(lines, s, ae);
                let title = extract_title(lines, s, ae);
                let ghost prev_pv = pages_view(pages@);
                let page = MarkdownPage {
                    number: j + 1,
                    content,
                    title,
                    start_line: s,
                    end_line: ae,
                };
                proof {
                    assert(page@ =~= window_page(ldv, s as int, e as int, j + 1));
                }
                pages.push(page);
                proof {
                    assert(pages_view(pages@) =~= prev_pv.push(
                        window_page(ldv, s as int, e as int, j + 1),
                    ));
                    assert(raw_pages_from(ldv, ib, j as int) == seq![
                        window_page(ldv, s as int, e as int, j + 1),
                    ] + raw_pages_from(ldv, ib, j + 1));
                    assert(prev_pv + (seq![window_page(ldv, s as int, e as int, j + 1)]
                        + raw_pages_from(ldv, ib, j + 1)) =~= pages_view(pages@)
                        + raw_pages_from(ldv, ib, j + 1));
                }
            } else {
                proof {
                    assert(raw_pages_from(ldv, ib, j as int) == raw_pages_from(ldv, ib, j + 1));
                }
            }
            j = j + 1;
        }
        proof {
            assert(raw_pages_from(ldv, ib, j as int) =~= Seq::<PageView>::empty());
            assert(pages_view(pages@) + Seq::<PageView>::empty() =~= pages_view(pages@));
            assert(raw_pages_from(ldv, ib, 0) =~= pages_view(pages@));
        }
        if pages.len() == 0 {
            return Err(
                MarkdownSplitterError::PageParsing {
                    reason: String::from_str("No valid pages found in document"),
                },
            );
        }
        let ghost raws = pages_view(pages@);
        let mut merged: Vec<MarkdownPage> = Vec::new();
        let mut k: usize = 0;
        proof {
            assert(pages_view(merged@) =~= merge_pages_prefix(raws, 0));
        }
        while k < pages.len()
            invariant
                0 <= k <= pages@.len(),
                raws == pages_view(pages@),
                pages_view(merged@) == merge_pages_prefix(raws, k as int),
                forall|t: int|
                    0 <= t < pages@.len() ==> (#[trigger] pages@[t]).start_line
                        < pages@[t].end_line,
            decreases pages@.len() - k,
        {
            let p = &pages[k];
            proof {
                assert(p@ == raws[k as int]);
            }
            let line_count = p.end_line - p.start_line;
            let small = line_count <= 10;
            let marker = check_marker_title(&p.title);
            let ghost acc = pages_view(merged@);
            if small && !marker && merged.len() > 0 {
                let mut prev = merged.pop().unwrap();
                let ghost prev_v = prev@;
                prev.content.append("\n\n");
                prev.content.append(p.content.as_str());
                prev.end_line = p.end_line;
                proof {
                    reveal_strlit("\n\n");
                    assert("\n\n"@ =~= seq!['\n', '\n']);
                    assert(prev.content@ =~= prev_v.content + seq!['\n', '\n'] + p@.content);
                    assert(prev@ =~= merged_page(prev_v, p@));
                }
                merged.push(prev);
                proof {
                    assert(should_merge(raws[k as int]));
                    assert(prev_v == acc[acc.len() - 1]);
                    assert(pages_view(merged@) =~= acc.update(
                        acc.len() - 1,
                        merged_page(acc[acc.len() - 1], raws[k as int]),
                    ));
                }
            } else {
                merged.push(copy_page(p));
                proof {
                    assert(!(should_merge(raws[k as int]) && acc.len() > 0));
                    assert(pages_view(merged@) =~= acc.push(raws[k as int]));
                }
            }
            k = k + 1;
        }
        let ghost mv = pages_view(merged@);
        proof {
            assert(mv == spec_merge(raws));
        }
        let mut out: Vec<MarkdownPage> = Vec::new();
        let mut idx: usize = 0;
        while idx < merged.len()
            invariant
                0 <= idx <= merged@.len(),
                mv == pages_view(merged@),
                out@.len() == idx,
                forall|t: int|
                    0 <= t < idx ==> (#[trigger] out@[t])@ == (PageView { number: t + 1, ..mv[t] }),
            decreases merged@.len() - idx,
        {
            let p = &merged[idx];
            proof {
                assert(p@ == mv[idx as int]);
            }
            let mut q = copy_page(p);
            q.number = idx + 1;
            out.push(q);
            idx = idx + 1;
        }
        proof {
            assert(pages_view(out@) =~= spec_renumber(mv));
        }
        Ok(out)
    }

    /// Parse a document: split the text into lines, detect the boundaries,
    /// extract and merge the pages, and assemble the document with its
    /// provenance metadata; the found boundaries are recorded in the
    /// metadata. Fails exactly when no page can be extracted.
    pub fn parse_document(&self, content: &str, metadata: DocumentMetadata) -> (r: Result<
        MarkdownDocument,
        MarkdownSplitterError,
    >)
        ensures
            ({
                let ls = spec_lines(content@);
                let breaks = spec_page_breaks(ls, self.marker());
                let raw = raw_pages_from(ls, breaks, 0);
                &&& raw.len() == 0 ==> (r matches Err(e) && e matches
                    MarkdownSplitterError::PageParsing { reason } && reason@
                    == "No valid pages found in document"@)
                &&& raw.len() > 0 ==> (r matches Ok(d) && {
                    &&& d.source@ == metadata.filename@
                    &&& d.metadata.filename@ == metadata.filename@
                    &&& d.metadata.source_type == metadata.source_type
                    &&& d.metadata.created_at@ == metadata.created_at@
                    &&& d.metadata.total_lines == metadata.total_lines
                    &&& usize_seq(d.metadata.page_breaks@) == breaks
                    &&& d.total_pages == d.pages@.len()
                    &&& pages_view(d.pages@) == spec_extract_pages(ls, breaks)
                    &&& d.wf()
                })
            }),
    {
        let lines = split_lines(content);
        let breaks = self.find_page_breaks(&lines);
        proof {
            lemma_page_breaks_wf(lines.deep_view(), self.marker());
        }
        let mut md = metadata;
        md.page_breaks = copy_usize_vec(&breaks);
        match self.extract_pages(&lines, &breaks) {
            Err(e) => Err(e),
            Ok(pages) => {
                proof {
                    let ls = spec_lines(content@);
                    let bs = spec_page_breaks(ls, self.marker());
                    lemma_raw_pages_ordered(ls, bs, 0);
                    lemma_merge_suppresses_small_pages(raw_pages_from(ls, bs, 0));
                    let merged = spec_merge(raw_pages_from(ls, bs, 0));
                    let ren = spec_renumber(merged);
                    assert forall|i: int|
                        0 <= i < ren.len() implies (#[trigger] ren[i]).number == i + 1 && ren[
                    i].start_line < ren[i].end_line by {
                        assert(ren[i] == (PageView { number: i + 1, ..merged[i] }));
                    }
                    assert forall|i: int|
                        0 <= i < ren.len() - 1 implies (#[trigger] ren[i]).end_line <= ren[i
                        + 1].start_line by {
                        assert(ren[i] == (PageView { number: i + 1, ..merged[i] }));
                        assert(ren[i + 1] == (PageView { number: i + 2, ..merged[i + 1] }));
                    }
                    assert forall|i: int|
                        0 <= i < pages@.len() implies (#[trigger] pages@[i])@ == ren[i] by {
                        assert(pages_view(pages@)[i] == pages@[i]@);
                    }
                }
                let total_pages = pages.len();
                Ok(
                    MarkdownDocument {
                        source: md.filename.clone(),
                        total_pages,
                        pages,
                        metadata: md,
                    },
                )
            },
        }
    }
}

proof fn lemma_explicit_indices_membership(
    lines: Seq<Seq<char>>,
    custom: Option<Seq<char>>,
    n: int,
    i: int,
)
    ensures
        explicit_break_indices(lines, custom, n).contains(i) <==> (1 <= i < n
            && is_explicit_marker(lines[i], custom)),
    decreases n,
{
    let s = explicit_break_indices(lines, custom, n);
    if n <= 1 {
        assert(s.len() == 0);
    } else {
        lemma_explicit_indices_membership(lines, custom, n - 1, i);
        let prev = explicit_break_indices(lines, custom, n - 1);
        if is_explicit_marker(lines[n - 1], custom) {
            assert(s =~= prev.push(n - 1));
            if s.contains(i) {
                let k = choose|k: int| 0 <= k < s.len() && s[k] == i;
                if k < prev.len() {
                    assert(prev[k] == i);
                    assert(prev.contains(i));
                } else {
                    assert(i == n - 1);
                }
            }
            if 1 <= i < n && is_explicit_marker(lines[i], custom) {
                if i == n - 1 {
                    assert(s[s.len() - 1] == i);
                    assert(s.contains(i));
                } else {
                    assert(prev.contains(i));
                    let k = choose|k: int| 0 <= k < prev.len() && prev[k] == i;
                    assert(s[k] == i);
                    assert(s.contains(i));
                }
            }
        } else {
            assert(s =~= prev);
        }
    }
}

proof fn lemma_fallback_indices_membership(
    lines: Seq<Seq<char>>,
    custom_present: bool,
    n: int,
    i: int,
)
    ensures
        fallback_break_indices(lines, custom_present, n).contains(i) <==> (1 <= i < n
            && is_fallback_break(lines[i], custom_present)),
    decreases n,
{
    let s = fallback_break_indices(lines, custom_present, n);
    if n <= 1 {
        assert(s.len() == 0);
    } else {
        lemma_fallback_indices_membership(lines, custom_present, n - 1, i);
        let prev = fallback_break_indices(lines, custom_present, n - 1);
        if is_fallback_break(lines[n - 1], custom_present) {
            assert(s =~= prev.push(n - 1));
            if s.contains(i) {
                let k = choose|k: int| 0 <= k < s.len() && s[k] == i;
                if k < prev.len() {
                    assert(prev[k] == i);
                    assert(prev.contains(i));
                } else {
                    assert(i == n - 1);
                }
            }
            if 1 <= i < n && is_fallback_break(lines[i], custom_present) {
                if i == n - 1 {
                    assert(s[s.len() - 1] == i);
                    assert(s.contains(i));
                } else {
                    assert(prev.contains(i));
                    let k = choose|k: int| 0 <= k < prev.len() && prev[k] == i;
                    assert(s[k] == i);
                    assert(s.contains(i));
                }
            }
        } else {
            assert(s =~= prev);
        }
    }
}

/// A line index is a boundary exactly when it is one of the two ends or its
/// line fires the pattern family that applies to the document.
pub proof fn lemma_page_breaks_membership(
    lines: Seq<Seq<char>>,
    custom: Option<Seq<char>>,
    i: int,
)
    ensures
        spec_page_breaks(lines, custom).contains(i) <==> (i == 0 || i == lines.len() || (1 <= i
            < lines.len() && line_is_break(lines, custom, i))),
{
    let bs = spec_page_breaks(lines, custom);
    if lines.len() == 0 {
        assert(bs =~= seq![0int]);
        if bs.contains(i) {
            let k = choose|k: int| 0 <= k < bs.len() && bs[k] == i;
            assert(i == 0);
        }
        assert(bs[0] == 0);
        assert(bs.contains(0));
    } else {
        let n = lines.len() as int;
        let mid = if has_explicit_marker(lines, custom) {
            explicit_break_indices(lines, custom, n)
        } else {
            fallback_break_indices(lines, custom is Some, n)
        };
        if has_explicit_marker(lines, custom) {
            lemma_explicit_indices_membership(lines, custom, n, i);
        } else {
            lemma_fallback_indices_membership(lines, custom is Some, n, i);
        }
        assert(bs =~= seq![0int] + mid + seq![n]);
        if bs.contains(i) {
            let k = choose|k: int| 0 <= k < bs.len() && bs[k] == i;
            if k == 0 {
                assert(i == 0);
            } else if k <= mid.len() {
                assert(bs[k] == mid[k - 1]);
                assert(mid.contains(i));
            } else {
                assert(i == n);
            }
        }
        if i == 0 {
            assert(bs[0] == 0);
            assert(bs.contains(i));
        } else if i == n {
            assert(bs[bs.len() - 1] == n);
            assert(bs.contains(i));
        } else if 1 <= i < n && line_is_break(lines, custom, i) {
            assert(mid.contains(i));
            let k = choose|k: int| 0 <= k < mid.len() && mid[k] == i;
            assert(bs[k + 1] == i);
            assert(bs.contains(i));
        }
    }
}

/// When any line of the document carries an explicit page marker, the marker
/// family is authoritative: no other line — horizontal rule, heading, or any
/// fallback pattern — becomes a boundary.
pub proof fn lemma_explicit_markers_authoritative(
    lines: Seq<Seq<char>>,
    custom: Option<Seq<char>>,
    i: int,
)
    requires
        has_explicit_marker(lines, custom),
        0 < i < lines.len(),
        !is_explicit_marker(lines[i], custom),
    ensures
        !spec_page_breaks(lines, custom).contains(i),
{
    lemma_page_breaks_membership(lines, custom, i);
}

/// When no line carries an explicit page marker, the fallback family decides:
/// a line strictly inside the document is a boundary exactly when it is a
/// horizontal rule, an HTML page break, a LaTeX directive, or an H1/H2
/// heading (or, with a custom marker configured, a bare page-marker line).
pub proof fn lemma_fallback_boundaries(lines: Seq<Seq<char>>, custom: Option<Seq<char>>, i: int)
    requires
        !has_explicit_marker(lines, custom),
        0 < i < lines.len(),
    ensures
        spec_page_breaks(lines, custom).contains(i) <==> is_fallback_break(
            lines[i],
            custom is Some,
        ),
{
    lemma_page_breaks_membership(lines, custom, i);
}

proof fn lemma_title_scan_none(ls: Seq<Seq<char>>, j: int)
    requires
        j >= 0,
        forall|t: int| 0 <= t < 10 && t < ls.len() ==> !is_title_heading(#[trigger] ls[t]),
    ensures
        title_scan(ls, j) is None,
    decreases 10 - j,
{
    if !(j < 0 || j >= 10 || j >= ls.len()) {
        lemma_title_scan_none(ls, j + 1);
    }
}

/// Title extraction scans only the first ten lines of a page: when no heading
/// stands among them, the page has no title, whatever follows further down.
pub proof fn lemma_title_window(ls: Seq<Seq<char>>)
    requires
        forall|t: int| 0 <= t < 10 && t < ls.len() ==> !is_title_heading(#[trigger] ls[t]),
    ensures
        spec_title_of(ls) is None,
{
    lemma_title_scan_none(ls, 0);
}

proof fn lemma_merge_prefix_props(ps: Seq<PageView>, n: int)
    requires
        0 <= n <= ps.len(),
        forall|i: int| 0 <= i < ps.len() ==> (#[trigger] ps[i]).start_line < ps[i].end_line,
        forall|i: int|
            0 <= i < ps.len() - 1 ==> (#[trigger] ps[i]).end_line <= ps[i + 1].start_line,
    ensures
        ({
            let acc = merge_pages_prefix(ps, n);
            &&& n > 0 ==> acc.len() > 0 && acc[0].start_line == ps[0].start_line
                && acc[acc.len() - 1].end_line == ps[n - 1].end_line
            &&& forall|j: int|
                0 <= j < acc.len() ==> (#[trigger] acc[j]).start_line < acc[j].end_line
            &&& forall|j: int|
                0 <= j < acc.len() - 1 ==> (#[trigger] acc[j]).end_line <= acc[j + 1].start_line
            &&& forall|j: int| 1 <= j < acc.len() ==> !should_merge(#[trigger] acc[j])
        }),
    decreases n,
{
    if n > 0 {
        lemma_merge_prefix_props(ps, n - 1);
        let prev = merge_pages_prefix(ps, n - 1);
        let acc = merge_pages_prefix(ps, n);
        let p = ps[n - 1];
        if should_merge(p) && prev.len() > 0 {
            let last = prev[prev.len() - 1];
            assert(n - 1 >= 1);
            assert(last.end_line == ps[n - 2].end_line);
            assert(ps[n - 2].end_line <= p.start_line);
            let m = merged_page(last, p);
            assert(m.start_line < m.end_line);
            assert(acc =~= prev.update(prev.len() - 1, m));
            if prev.len() - 1 >= 1 {
                assert(!should_merge(last));
                if last.end_line - last.start_line > 10 {
                    assert(m.end_line - m.start_line > 10);
                } else {
                    assert(is_marker_title(last.title));
                    assert(m.title == last.title);
                }
                assert(!should_merge(m));
            }
        } else {
            assert(acc =~= prev.push(p));
        }
    }
}

/// The merge pass suppresses small pages: in the merged sequence every page
/// but the first spans more than ten lines or carries a page-marker-looking
/// title, the first page always survives with its start unchanged, and pages
/// keep at least one line each.
pub proof fn lemma_merge_suppresses_small_pages(ps: Seq<PageView>)
    requires
        forall|i: int| 0 <= i < ps.len() ==> (#[trigger] ps[i]).start_line < ps[i].end_line,
        forall|i: int|
            0 <= i < ps.len() - 1 ==> (#[trigger] ps[i]).end_line <= ps[i + 1].start_line,
    ensures
        ps.len() > 0 ==> spec_merge(ps).len() > 0,
        ps.len() > 0 ==> spec_merge(ps)[0].start_line == ps[0].start_line,
        forall|j: int|
            0 <= j < spec_merge(ps).len() ==> (#[trigger] spec_merge(ps)[j]).start_line
                < spec_merge(ps)[j].end_line,
        forall|j: int|
            0 <= j < spec_merge(ps).len() - 1 ==> (#[trigger] spec_merge(ps)[j]).end_line
                <= spec_merge(ps)[j + 1].start_line,
        forall|j: int| 1 <= j < spec_merge(ps).len() ==> !should_merge(#[trigger] spec_merge(ps)[j]),
{
    lemma_merge_prefix_props(ps, ps.len() as int);
}

/// The pages cut between sorted boundaries are in document order: every page
/// spans at least one line inside the document, and consecutive pages do not
/// overlap.
pub proof fn lemma_raw_pages_ordered(lines: Seq<Seq<char>>, breaks: Seq<int>, j: int)
    requires
        breaks_nondecreasing(breaks),
        0 <= j,
    ensures
        ({
            let ps = raw_pages_from(lines, breaks, j);
            &&& forall|t: int|
                0 <= t < ps.len() ==> (#[trigger] ps[t]).start_line < ps[t].end_line
                    <= lines.len()
            &&& forall|t: int| 0 <= t < ps.len() ==> (#[trigger] ps[t]).start_line >= breaks[j]
            &&& forall|t: int|
                0 <= t < ps.len() - 1 ==> (#[trigger] ps[t]).end_line <= ps[t + 1].start_line
        }),
    decreases breaks.len() - j,
{
    let ps = raw_pages_from(lines, breaks, j);
    if j + 1 < breaks.len() {
        let s = breaks[j];
        let e = breaks[j + 1];
        assert(s <= e);
        if s < lines.len() {
            let ae = if e < lines.len() {
                e
            } else {
                lines.len() as int
            };
            lemma_raw_pages_ordered(lines, breaks, j + 1);
            let rest = raw_pages_from(lines, breaks, j + 1);
            if ae <= s {
                assert(ps =~= rest);
            } else {
                let w = window_page(lines, s, e, j + 1);
                assert(ps == seq![w] + rest);
                assert(w.start_line == s && w.end_line == ae);
                assert forall|t: int|
                    0 <= t < ps.len() implies (#[trigger] ps[t]).start_line < ps[t].end_line
                    <= lines.len() && ps[t].start_line >= breaks[j as int] by {
                    if t > 0 {
                        assert(ps[t] == rest[t - 1]);
                        assert(rest[t - 1].start_line >= breaks[j + 1]);
                    }
                }
                assert forall|t: int|
                    0 <= t < ps.len() - 1 implies (#[trigger] ps[t]).end_line <= ps[t
                    + 1].start_line by {
                    if t == 0 {
                        assert(ps[1] == rest[0]);
                        assert(rest[0].start_line >= breaks[j + 1]);
                    } else {
                        assert(ps[t] == rest[t - 1] && ps[t + 1] == rest[t]);
                    }
                }
            }
        }
    }
}

impl Default for MarkdownParser {
    /// A parser with the default cascade and no custom marker.
    fn default() -> (r: Self)
        ensures
            r.marker() is None,
    {
        MarkdownParser { custom_page_marker: None }
    }
}

} // verus!
