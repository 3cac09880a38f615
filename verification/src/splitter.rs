//! The splitting core: validation of a split request, the deterministic
//! partition of pages into fragments by ceiling division, filename
//! generation, and the assembly of each fragment's content.

use vstd::arithmetic::div_mod::lemma_fundamental_div_mod;
use vstd::prelude::*;
use vstd::string::StrSliceExecFns;
use vstd::string::StringExecFns;

use crate::error::MarkdownSplitterError;
use crate::text::last_index_of;
use crate::text::push_char;
use crate::text::rfind_char;
use crate::text::spec_decimal;
use crate::text::spec_pad_left;
use crate::text::usize_to_string;
use crate::text::pad_left_zeros;
use crate::types::MarkdownDocument;
use crate::types::MarkdownPage;
use crate::types::PageView;
use crate::types::SplitConfig;
use crate::types::SplitResult;
use crate::types::pages_view;

verus! {

/// `total / splits`, rounded up.
pub open spec fn ceil_div(total: int, splits: int) -> int
    recommends
        splits >= 1,
{
    (total + splits - 1) / splits
}

/// A sequence of `usize` pairs as pairs of mathematical integers.
pub open spec fn pair_seq(s: Seq<(usize, usize)>) -> Seq<(int, int)> {
    s.map_values(|p: (usize, usize)| (p.0 as int, p.1 as int))
}

/// The inclusive 1-based page ranges of the splits, from split `idx` on:
/// split `idx` covers the 0-based half-open range
/// `[idx * pps, min(idx * pps + pps, total))`, and range production stops at
/// `splits` ranges or as soon as a split would start past the last page.
pub open spec fn spec_split_ranges(total: int, pps: int, splits: int, idx: int) -> Seq<(int, int)>
    decreases splits - idx,
{
    if idx < 0 || idx >= splits {
        Seq::empty()
    } else {
        let start = idx * pps;
        if start >= total {
            Seq::empty()
        } else {
            let end = if start + pps <= total {
                start + pps
            } else {
                total
            };
            seq![(start + 1, end)] + spec_split_ranges(total, pps, splits, idx + 1)
        }
    }
}

/// The sum of the page counts the ranges cover, each range inclusive on both
/// ends.
pub open spec fn range_span_sum(rs: Seq<(int, int)>) -> int
    decreases rs.len(),
{
    if rs.len() == 0 {
        0
    } else {
        (rs[0].1 - rs[0].0 + 1) + range_span_sum(rs.drop_first())
    }
}

proof fn lemma_ceil_div_bounds(total: int, splits: int)
    requires
        total >= 0,
        splits >= 1,
    ensures
        ceil_div(total, splits) >= 0,
        splits * ceil_div(total, splits) >= total,
        ceil_div(total, splits) <= total,
        total >= 1 ==> ceil_div(total, splits) >= 1,
        total >= 1 ==> splits * (ceil_div(total, splits) - 1) < total,
{
    let q = ceil_div(total, splits);
    lemma_fundamental_div_mod(total + splits - 1, splits);
    let r = (total + splits - 1) % splits;
    assert(total + splits - 1 == splits * q + r);
    assert(0 <= r < splits);
    assert(splits * q == total + splits - 1 - r);
    assert(splits * q >= total);
    if q < 0 {
        assert(splits * q <= 0) by (nonlinear_arith)
            requires
                splits >= 1 && q < 0,
        ;
        assert(false);
    }
    if q > total {
        assert(splits * q >= q) by (nonlinear_arith)
            requires
                splits >= 1 && q >= 0,
        ;
        assert(splits * q == total + splits - 1 - r);
        assert(q <= total + splits - 1 - r - (splits - 1) * q) by (nonlinear_arith)
            requires
                splits * q == total + splits - 1 - r && q >= 0 && splits >= 1,
        ;
        assert((splits - 1) * q >= splits - 1) by (nonlinear_arith)
            requires
                splits >= 1 && q >= 1,
        ;
        assert(q <= total - r);
        assert(false);
    }
    if total >= 1 {
        if q < 1 {
            assert(splits * q <= 0) by (nonlinear_arith)
                requires
                    splits >= 1 && q <= 0,
            ;
            assert(false);
        }
        assert(splits * (q - 1) == splits * q - splits) by (nonlinear_arith);
        assert(splits * (q - 1) == total - 1 - r);
        assert(splits * (q - 1) < total);
    }
}

/// Pages-per-split is the least count that lets `splits` fragments cover all
/// pages: `splits * pps` reaches `total`, and one page fewer per split would
/// fall short.
pub proof fn lemma_pages_per_split_is_ceiling(total: int, splits: int)
    requires
        1 <= splits <= total,
    ensures
        splits * ceil_div(total, splits) >= total,
        splits * (ceil_div(total, splits) - 1) < total,
        ceil_div(total, splits) >= 1,
{
    lemma_ceil_div_bounds(total, splits);
}

proof fn lemma_split_ranges_cover(total: int, pps: int, splits: int, idx: int)
    requires
        pps >= 1,
        0 <= idx < splits,
        idx * pps < total,
        splits * pps >= total,
    ensures
        ({
            let rs = spec_split_ranges(total, pps, splits, idx);
            &&& rs.len() >= 1
            &&& rs[0].0 == idx * pps + 1
            &&& rs[rs.len() - 1].1 == total
            &&& forall|t: int| 0 <= t < rs.len() ==> (#[trigger] rs[t]).0 <= rs[t].1
            &&& forall|t: int| 0 <= t < rs.len() - 1 ==> (#[trigger] rs[t]).1 + 1 == rs[t + 1].0
            &&& range_span_sum(rs) == total - idx * pps
        }),
    decreases splits - idx,
{
    let rs = spec_split_ranges(total, pps, splits, idx);
    let start = idx * pps;
    assert((idx + 1) * pps == idx * pps + pps) by (nonlinear_arith);
    if start + pps >= total {
        // the last range: the next split would start past the final page
        assert(spec_split_ranges(total, pps, splits, idx + 1) =~= Seq::<(int, int)>::empty());
        assert(rs =~= seq![(start + 1, total)]);
        assert(rs.drop_first() =~= Seq::<(int, int)>::empty());
        assert(range_span_sum(Seq::<(int, int)>::empty()) == 0);
        assert(rs[0] == (start + 1, total));
        assert(range_span_sum(rs) == total - start);
    } else {
        if idx + 1 >= splits {
            assert(splits * pps == (idx + 1) * pps);
            assert(false);
        }
        lemma_split_ranges_cover(total, pps, splits, idx + 1);
        let rest = spec_split_ranges(total, pps, splits, idx + 1);
        assert(rs == seq![(start + 1, start + pps)] + rest);
        assert(rs.drop_first() =~= rest);
        assert forall|t: int| 0 <= t < rs.len() - 1 implies (#[trigger] rs[t]).1 + 1 == rs[t
            + 1].0 by {
            if t == 0 {
                assert(rs[1] == rest[0]);
            } else {
                assert(rs[t] == rest[t - 1] && rs[t + 1] == rest[t]);
            }
        }
        assert(range_span_sum(rs) == (start + pps - (start + 1) + 1) + range_span_sum(rest));
    }
}

/// The planner's ranges partition `1..=total`: the first range starts at `1`,
/// each later range starts right after its predecessor ends, the last range
/// ends at `total`, no range is empty, and the covered page counts add up to
/// `total`.
pub proof fn lemma_split_ranges_partition(total: int, splits: int)
    requires
        1 <= splits <= total,
    ensures
        ({
            let rs = spec_split_ranges(total, ceil_div(total, splits), splits, 0);
            &&& rs.len() >= 1
            &&& rs[0].0 == 1
            &&& rs[rs.len() - 1].1 == total
            &&& forall|t: int| 0 <= t < rs.len() ==> (#[trigger] rs[t]).0 <= rs[t].1
            &&& forall|t: int| 0 <= t < rs.len() - 1 ==> (#[trigger] rs[t]).1 + 1 == rs[t + 1].0
            &&& range_span_sum(rs) == total
        }),
{
    lemma_ceil_div_bounds(total, splits);
    lemma_split_ranges_cover(total, ceil_div(total, splits), splits, 0);
}

/// The fallback name used when a source name yields no usable stem.
pub open spec fn document_word() -> Seq<char> {
    seq!['d', 'o', 'c', 'u', 'm', 'e', 'n', 't']
}

/// The stem of a source name: the part after the last `/`, with the extension
/// (the text from the last `.` on, unless that dot starts the name) removed;
/// an empty final part, `.` or `..` yields the fallback name "document".
pub open spec fn spec_source_stem(s: Seq<char>) -> Seq<char> {
    let seg = s.subrange(last_index_of(s, '/') + 1, s.len() as int);
    if seg.len() == 0 || seg == seq!['.'] || seg == seq!['.', '.'] {
        document_word()
    } else {
        let d = last_index_of(seg, '.');
        if d <= 0 {
            seg
        } else {
            seg.take(d)
        }
    }
}

/// Compute the stem of a source name, per `spec_source_stem`.
pub fn file_stem(source_name: &str) -> (r: String)
    ensures
        r@ == spec_source_stem(source_name@),
{
    let n = source_name.unicode_len();
    let (has_slash, slash) = rfind_char(source_name, '/');
    let seg_start = if has_slash {
        slash + 1
    } else {
        0
    };
    let seg = source_name.substring_char(seg_start, n);
    let ghost segv = source_name@.subrange(
        last_index_of(source_name@, '/') + 1,
        source_name@.len() as int,
    );
    proof {
        assert(seg@ =~= segv);
    }
    let seg_len = seg.unicode_len();
    let dot1 = seg_len == 1 && seg.get_char(0) == '.';
    let dot2 = seg_len == 2 && seg.get_char(0) == '.' && seg.get_char(1) == '.';
    if seg_len == 0 || dot1 || dot2 {
        proof {
            if dot1 {
                assert(segv =~= seq!['.']);
            }
            if dot2 {
                assert(segv =~= seq!['.', '.']);
            }
            if seg_len == 1 && !dot1 {
                assert(segv != seq!['.']) by {
                    assert(segv[0] != '.');
                }
            }
        }
        let mut d = String::new();
        push_char(&mut d, 'd');
        push_char(&mut d, 'o');
        push_char(&mut d, 'c');
        push_char(&mut d, 'u');
        push_char(&mut d, 'm');
        push_char(&mut d, 'e');
        push_char(&mut d, 'n');
        push_char(&mut d, 't');
        proof {
            assert(d@ =~= document_word());
        }
        d
    } else {
        proof {
            if segv == seq!['.'] {
                assert(segv.len() == 1 && segv[0] == '.');
            }
            if segv == seq!['.', '.'] {
                assert(segv.len() == 2 && segv[0] == '.' && segv[1] == '.');
            }
        }
        let (has_dot, dot) = rfind_char(seg, '.');
        if !has_dot || dot == 0 {
            String::from_str(seg)
        } else {
            let stem = seg.substring_char(0, dot);
            proof {
                assert(stem@ =~= segv.take(last_index_of(segv, '.')));
            }
            String::from_str(stem)
        }
    }
}

/// `dir` and `name` joined with a single `/`; an empty `dir` contributes
/// nothing, and a `dir` already ending in `/` gets no second one.
pub open spec fn spec_join_path(dir: Seq<char>, name: Seq<char>) -> Seq<char> {
    if dir.len() == 0 {
        name
    } else if dir[dir.len() - 1] == '/' {
        dir + name
    } else {
        dir + seq!['/'] + name
    }
}

/// Join a directory and a file name, per `spec_join_path`.
pub fn join_path(dir: &str, name: &str) -> (r: String)
    ensures
        r@ == spec_join_path(dir@, name@),
{
    let n = dir.unicode_len();
    if n == 0 {
        String::from_str(name)
    } else if dir.get_char(n - 1) == '/' {
        let mut r = String::from_str(dir);
        r.append(name);
        r
    } else {
        let mut r = String::from_str(dir);
        push_char(&mut r, '/');
        r.append(name);
        proof {
            assert(r@ =~= dir@ + seq!['/'] + name@);
        }
        r
    }
}

pub open spec fn split_infix() -> Seq<char> {
    seq!['_', 's', 'p', 'l', 'i', 't', '_']
}

pub open spec fn of_infix() -> Seq<char> {
    seq!['_', 'o', 'f', '_']
}

pub open spec fn md_extension() -> Seq<char> {
    seq!['.', 'm', 'd']
}

pub open spec fn metadata_suffix() -> Seq<char> {
    seq!['_', 'm', 'e', 't', 'a', 'd', 'a', 't', 'a', '.', 'j', 's', 'o', 'n']
}

/// The name of one split artifact: the source stem, the 1-based split number
/// zero-padded to the width of the total's decimal rendering, the total, and
/// the markdown extension.
pub open spec fn spec_output_filename(source: Seq<char>, num: int, total: int) -> Seq<char>
    recommends
        num >= 0,
        total >= 0,
{
    spec_source_stem(source) + split_infix() + spec_pad_left(
        spec_decimal(num as nat),
        spec_decimal(total as nat).len(),
    ) + of_infix() + spec_decimal(total as nat) + md_extension()
}

/// The name of the optional manifest artifact.
pub open spec fn spec_metadata_filename(source: Seq<char>) -> Seq<char> {
    spec_source_stem(source) + metadata_suffix()
}

/// The contents of the pages, concatenated with nothing in between.
pub open spec fn concat_contents(ps: Seq<PageView>) -> Seq<char>
    decreases ps.len(),
{
    if ps.len() == 0 {
        Seq::empty()
    } else {
        ps[0].content + concat_contents(ps.drop_first())
    }
}

/// The page separator inserted between pages when structure is preserved.
pub open spec fn page_separator() -> Seq<char> {
    seq!['\n', '\n', '-', '-', '-', '\n', '\n']
}

/// The contents of the pages, joined with the page separator.
pub open spec fn join_contents_sep(ps: Seq<PageView>) -> Seq<char>
    decreases ps.len(),
{
    if ps.len() == 0 {
        Seq::empty()
    } else if ps.len() == 1 {
        ps[0].content
    } else {
        ps[0].content + page_separator() + join_contents_sep(ps.drop_first())
    }
}

pub open spec fn header_open() -> Seq<char> {
    seq![
        '<',
        '!',
        '-',
        '-',
        ' ',
        'S',
        'p',
        'l',
        'i',
        't',
        ' ',
        'c',
        'o',
        'n',
        't',
        'a',
        'i',
        'n',
        'i',
        'n',
        'g',
        ' ',
        'p',
        'a',
        'g',
        'e',
        's',
        ' ',
    ]
}

pub open spec fn header_middle() -> Seq<char> {
    seq![' ', 't', 'o', ' ']
}

pub open spec fn header_close() -> Seq<char> {
    seq![' ', '-', '-', '>', '\n', '\n']
}

/// The structural header of one split artifact, naming the first and last
/// page number it covers.
pub open spec fn header_text(first: int, last: int) -> Seq<char>
    recommends
        first >= 0,
        last >= 0,
{
    header_open() + spec_decimal(first as nat) + header_middle() + spec_decimal(last as nat)
        + header_close()
}

/// The full content of one split artifact over the pages `ps`: with structure
/// preserved, a header line and separator-joined pages; otherwise the page
/// contents back to back.
pub open spec fn spec_split_content(ps: Seq<PageView>, preserve: bool) -> Seq<char>
    recommends
        ps.len() >= 1,
{
    if preserve {
        header_text(ps[0].number, ps[ps.len() - 1].number) + join_contents_sep(ps)
    } else {
        concat_contents(ps)
    }
}

pub proof fn lemma_concat_contents_push(ps: Seq<PageView>, p: PageView)
    ensures
        concat_contents(ps.push(p)) == concat_contents(ps) + p.content,
    decreases ps.len(),
{
    if ps.len() == 0 {
        assert(ps.push(p)[0] == p);
        assert(ps.push(p).drop_first() =~= Seq::<PageView>::empty());
        assert(concat_contents(Seq::<PageView>::empty()) == Seq::<char>::empty());
        assert(concat_contents(ps.push(p)) =~= p.content);
        assert(concat_contents(ps) + p.content =~= p.content);
    } else {
        lemma_concat_contents_push(ps.drop_first(), p);
        assert(ps.push(p).drop_first() =~= ps.drop_first().push(p));
        assert(concat_contents(ps) + p.content =~= ps[0].content + (concat_contents(
            ps.drop_first(),
        ) + p.content));
    }
}

pub proof fn lemma_join_contents_sep_push(ps: Seq<PageView>, p: PageView)
    ensures
        ps.len() == 0 ==> join_contents_sep(ps.push(p)) == p.content,
        ps.len() > 0 ==> join_contents_sep(ps.push(p)) == join_contents_sep(ps) + page_separator()
            + p.content,
    decreases ps.len(),
{
    if ps.len() == 0 {
        assert(ps.push(p)[0] == p);
        assert(join_contents_sep(ps.push(p)) == p.content);
    } else if ps.len() == 1 {
        assert(ps.push(p).drop_first() =~= seq![p]);
        assert(join_contents_sep(seq![p]) == seq![p][0].content);
        assert(ps.push(p)[0] == ps[0]);
        assert(join_contents_sep(ps.push(p)) == ps[0].content + page_separator() + p.content);
    } else {
        lemma_join_contents_sep_push(ps.drop_first(), p);
        assert(ps.push(p).drop_first() =~= ps.drop_first().push(p));
        assert(join_contents_sep(ps) + page_separator() + p.content =~= ps[0].content
            + page_separator() + (join_contents_sep(ps.drop_first()) + page_separator()
            + p.content));
    }
}

/// One planned split artifact: its output location, its full content, and the
/// 0-based half-open page range it covers.
pub struct SplitPart {
    pub filename: String,
    pub content: String,
    pub start_page: usize,
    pub end_page: usize,
}

/// The page contents of the split artifacts, concatenated in split order:
/// each range contributes the contents of the pages it covers, back to back.
pub open spec fn concat_parts(pages: Seq<PageView>, rs: Seq<(int, int)>) -> Seq<char>
    decreases rs.len(),
{
    if rs.len() == 0 {
        Seq::empty()
    } else {
        concat_contents(pages.subrange(rs[0].0 - 1, rs[0].1)) + concat_parts(
            pages,
            rs.drop_first(),
        )
    }
}

proof fn lemma_concat_contents_append(s1: Seq<PageView>, s2: Seq<PageView>)
    ensures
        concat_contents(s1 + s2) == concat_contents(s1) + concat_contents(s2),
    decreases s1.len(),
{
    if s1.len() == 0 {
        assert(s1 + s2 =~= s2);
        assert(concat_contents(s1) + concat_contents(s2) =~= concat_contents(s2));
    } else {
        lemma_concat_contents_append(s1.drop_first(), s2);
        assert((s1 + s2).drop_first() =~= s1.drop_first() + s2);
        assert((s1 + s2)[0] == s1[0]);
        assert(concat_contents(s1) + concat_contents(s2) =~= s1[0].content + (concat_contents(
            s1.drop_first(),
        ) + concat_contents(s2)));
    }
}

proof fn lemma_round_trip_from(pages: Seq<PageView>, total: int, pps: int, splits: int, idx: int)
    requires
        pps >= 1,
        0 <= idx < splits,
        idx * pps < total,
        splits * pps >= total,
        total == pages.len(),
    ensures
        concat_parts(pages, spec_split_ranges(total, pps, splits, idx)) == concat_contents(
            pages.subrange(idx * pps, total),
        ),
    decreases splits - idx,
{
    let rs = spec_split_ranges(total, pps, splits, idx);
    let start = idx * pps;
    assert((idx + 1) * pps == idx * pps + pps) by (nonlinear_arith);
    if start + pps >= total {
        assert(spec_split_ranges(total, pps, splits, idx + 1) =~= Seq::<(int, int)>::empty());
        assert(rs =~= seq![(start + 1, total)]);
        assert(rs[0] == (start + 1, total));
        assert(rs.drop_first() =~= Seq::<(int, int)>::empty());
        assert(concat_parts(pages, Seq::<(int, int)>::empty()) == Seq::<char>::empty());
        assert(concat_parts(pages, rs) =~= concat_contents(pages.subrange(start, total)));
    } else {
        if idx + 1 >= splits {
            assert(splits * pps == (idx + 1) * pps);
            assert(false);
        }
        lemma_round_trip_from(pages, total, pps, splits, idx + 1);
        let rest = spec_split_ranges(total, pps, splits, idx + 1);
        assert(rs == seq![(start + 1, start + pps)] + rest);
        assert(rs.drop_first() =~= rest);
        assert(rs[0] == (start + 1, start + pps));
        lemma_concat_contents_append(
            pages.subrange(start, start + pps),
            pages.subrange(start + pps, total),
        );
        assert(pages.subrange(start, start + pps) + pages.subrange(start + pps, total)
            =~= pages.subrange(start, total));
    }
}

/// Round trip: concatenating the page contents of all split artifacts in
/// split order reproduces the document's page contents exactly, for any valid
/// split count.
pub proof fn lemma_split_round_trip(pages: Seq<PageView>, total: int, splits: int)
    requires
        1 <= splits <= total,
        total == pages.len(),
    ensures
        concat_parts(pages, spec_split_ranges(total, ceil_div(total, splits), splits, 0))
            == concat_contents(pages),
{
    lemma_ceil_div_bounds(total, splits);
    assert(0int * ceil_div(total, splits) == 0) by (nonlinear_arith);
    lemma_round_trip_from(pages, total, ceil_div(total, splits), splits, 0);
    assert(pages.subrange(0, total) =~= pages);
}

/// Part `t` of a planned split is correct: it covers the 0-based half-open
/// page range of the `t`-th planned 1-based inclusive range, its location
/// follows the naming scheme, and its content is the range's assembled text.
pub open spec fn spec_part_ok(
    part: SplitPart,
    output_file: Seq<char>,
    document: MarkdownDocument,
    config: SplitConfig,
    rs: Seq<(int, int)>,
    t: int,
) -> bool {
    &&& part.start_page as int == rs[t].0 - 1
    &&& part.end_page as int == rs[t].1
    &&& part.filename@ == spec_join_path(
        config.output_dir@,
        spec_output_filename(document.source@, t + 1, config.splits as int),
    )
    &&& output_file == part.filename@
    &&& part.content@ == spec_split_content(
        pages_view(document.pages@).subrange(rs[t].0 - 1, rs[t].1),
        config.preserve_structure,
    )
}

proof fn range_start_bound(rs: Seq<(int, int)>, t: int)
    requires
        0 <= t < rs.len(),
        rs[0].0 == 1,
        forall|u: int| 0 <= u < rs.len() ==> (#[trigger] rs[u]).0 <= rs[u].1,
        forall|u: int| 0 <= u < rs.len() - 1 ==> (#[trigger] rs[u]).1 + 1 == rs[u + 1].0,
    ensures
        rs[t].0 >= 1,
    decreases t,
{
    if t > 0 {
        range_start_bound(rs, t - 1);
        assert(rs[t - 1].1 + 1 == rs[t].0);
    }
}

/// The splitting core. It plans partitions and assembles fragment contents;
/// it performs no I/O of its own.
pub struct DocumentSplitter;

impl DocumentSplitter {
    /// Check a split request against a document: the split count must be at
    /// least one and at most the page count, and the document must have at
    /// least one page. Each rejection names its own reason.
    pub fn validate_split_config(document: &MarkdownDocument, config: &SplitConfig) -> (r: Result<
        (),
        MarkdownSplitterError,
    >)
        ensures
            r is Ok <==> (1 <= config.splits <= document.total_pages),
            config.splits == 0 ==> (r matches Err(e) && e matches MarkdownSplitterError::SplitConfig
                { reason } && reason@ == "Number of splits must be greater than 0"@),
            config.splits >= 1 && document.total_pages == 0 ==> (r matches Err(e) && e matches
                MarkdownSplitterError::SplitConfig { reason } && reason@
                == "Document has no pages to split"@),
            config.splits >= 1 && 1 <= document.total_pages < config.splits ==> (r matches Err(e)
                && e matches MarkdownSplitterError::SplitConfig { reason } && reason@
                == "Number of splits ("@ + spec_decimal(config.splits as nat)
                + ") cannot exceed total pages ("@ + spec_decimal(document.total_pages as nat)
                + ")"@),
    {
        if config.splits == 0 {
            return Err(
                MarkdownSplitterError::SplitConfig {
                    reason: String::from_str("Number of splits must be greater than 0"),
                },
            );
        }
        if document.total_pages == 0 {
            return Err(
                MarkdownSplitterError::SplitConfig {
                    reason: String::from_str("Document has no pages to split"),
                },
            );
        }
        if config.splits > document.total_pages {
            let mut reason = String::from_str("Number of splits (");
            reason.append(usize_to_string(config.splits).as_str());
            reason.append(") cannot exceed total pages (");
            reason.append(usize_to_string(document.total_pages).as_str());
            reason.append(")");
            return Err(MarkdownSplitterError::SplitConfig { reason });
        }
        Ok(())
    }

    /// Compute pages-per-split by ceiling division and the resulting 1-based
    /// inclusive page ranges, per `spec_split_ranges`. Fewer than `splits`
    /// ranges come back when the ceiling makes earlier splits exhaust the
    /// pages.
    pub fn calculate_split_info(total_pages: usize, splits: usize) -> (r: (
        usize,
        Vec<(usize, usize)>,
    ))
        requires
            splits >= 1,
            total_pages <= usize::MAX / 2,
            splits <= usize::MAX / 2,
        ensures
            r.0 == ceil_div(total_pages as int, splits as int),
            pair_seq(r.1@) == spec_split_ranges(
                total_pages as int,
                r.0 as int,
                splits as int,
                0,
            ),
    {
        proof {
            lemma_ceil_div_bounds(total_pages as int, splits as int);
        }
        let pages_per_split = (total_pages + splits - 1) / splits;
        let mut split_ranges: Vec<(usize, usize)> = Vec::new();
        let mut idx: usize = 0;
        let mut start: usize = 0;
        proof {
            assert(pair_seq(split_ranges@) =~= Seq::<(int, int)>::empty());
            assert(0int * pages_per_split as int == 0) by (nonlinear_arith);
        }
        while idx < splits && start < total_pages
            invariant
                0 <= idx <= splits,
                splits >= 1,
                total_pages <= usize::MAX / 2,
                pages_per_split == ceil_div(total_pages as int, splits as int),
                pages_per_split <= total_pages,
                start as int == idx as int * pages_per_split as int,
                start <= total_pages + pages_per_split,
                spec_split_ranges(total_pages as int, pages_per_split as int, splits as int, 0)
                    == pair_seq(split_ranges@) + spec_split_ranges(
                    total_pages as int,
                    pages_per_split as int,
                    splits as int,
                    idx as int,
                ),
            decreases splits - idx,
        {
            let end = if start + pages_per_split <= total_pages {
                start + pages_per_split
            } else {
                total_pages
            };
            let ghost prev = pair_seq(split_ranges@);
            split_ranges.push((start + 1, end));
            proof {
                assert(pair_seq(split_ranges@) =~= prev.push((start + 1 as int, end as int)));
                assert(spec_split_ranges(
                    total_pages as int,
                    pages_per_split as int,
                    splits as int,
                    idx as int,
                ) == seq![(start + 1 as int, end as int)] + spec_split_ranges(
                    total_pages as int,
                    pages_per_split as int,
                    splits as int,
                    idx + 1,
                ));
                assert(prev + (seq![(start + 1 as int, end as int)] + spec_split_ranges(
                    total_pages as int,
                    pages_per_split as int,
                    splits as int,
                    idx + 1,
                )) =~= pair_seq(split_ranges@) + spec_split_ranges(
                    total_pages as int,
                    pages_per_split as int,
                    splits as int,
                    idx + 1,
                ));
                assert((idx + 1) as int * pages_per_split as int == idx as int
                    * pages_per_split as int + pages_per_split as int) by (nonlinear_arith);
            }
            idx = idx + 1;
            start = start + pages_per_split;
        }
        proof {
            assert(spec_split_ranges(
                total_pages as int,
                pages_per_split as int,
                splits as int,
                idx as int,
            ) =~= Seq::<(int, int)>::empty());
            assert(pair_seq(split_ranges@) + Seq::<(int, int)>::empty() =~= pair_seq(
                split_ranges@,
            ));
        }
        (pages_per_split, split_ranges)
    }

    /// The output location of one split artifact, per `spec_output_filename`
    /// joined onto the output directory.
    pub fn generate_output_filename(
        output_dir: &str,
        source_name: &str,
        split_number: usize,
        total_splits: usize,
    ) -> (r: String)
        ensures
            r@ == spec_join_path(
                output_dir@,
                spec_output_filename(source_name@, split_number as int, total_splits as int),
            ),
    {
        let total_str = usize_to_string(total_splits);
        let width = total_str.as_str().unicode_len();
        let num_str = usize_to_string(split_number);
        let padded = pad_left_zeros(num_str.as_str(), width);
        let mut name = file_stem(source_name);
        name.append("_split_");
        proof {
            reveal_strlit("_split_");
            assert("_split_"@ =~= split_infix());
        }
        name.append(padded.as_str());
        name.append("_of_");
        proof {
            reveal_strlit("_of_");
            assert("_of_"@ =~= of_infix());
        }
        name.append(total_str.as_str());
        name.append(".md");
        proof {
            reveal_strlit(".md");
            assert(".md"@ =~= md_extension());
            assert(name@ =~= spec_output_filename(
                source_name@,
                split_number as int,
                total_splits as int,
            ));
        }
        join_path(output_dir, name.as_str())
    }

    /// The output location of the manifest artifact.
    pub fn generate_metadata_filename(output_dir: &str, source_name: &str) -> (r: String)
        ensures
            r@ == spec_join_path(output_dir@, spec_metadata_filename(source_name@)),
    {
        let mut name = file_stem(source_name);
        name.append("_metadata.json");
        proof {
            reveal_strlit("_metadata.json");
            assert("_metadata.json"@ =~= metadata_suffix());
            assert(name@ =~= spec_metadata_filename(source_name@));
        }
        join_path(output_dir, name.as_str())
    }

    /// Assemble the content of one split artifact over the pages in the
    /// 0-based half-open range `[start_page, end_page)`, per
    /// `spec_split_content`.
    pub fn build_split_content(
        pages: &Vec<MarkdownPage>,
        start_page: usize,
        end_page: usize,
        preserve_structure: bool,
    ) -> (r: String)
        requires
            start_page < end_page <= pages@.len(),
        ensures
            r@ == spec_split_content(
                pages_view(pages@).subrange(start_page as int, end_page as int),
                preserve_structure,
            ),
    {
        let ghost ps = pages_view(pages@).subrange(start_page as int, end_page as int);
        let ghost head = if preserve_structure {
            header_text(ps[0].number, ps[ps.len() - 1].number)
        } else {
            Seq::<char>::empty()
        };
        let mut content = String::new();
        if preserve_structure {
            content.append("<!-- Split containing pages ");
            let first = &pages[start_page];
            content.append(usize_to_string(first.number).as_str());
            content.append(" to ");
            let last = &pages[end_page - 1];
            content.append(usize_to_string(last.number).as_str());
            content.append(" -->\n\n");
            proof {
                reveal_strlit("<!-- Split containing pages ");
                reveal_strlit(" to ");
                reveal_strlit(" -->\n\n");
                assert("<!-- Split containing pages "@ =~= header_open());
                assert(" to "@ =~= header_middle());
                assert(" -->\n\n"@ =~= header_close());
                assert(first@ == ps[0]);
                assert(last@ == ps[ps.len() - 1]);
                assert(content@ =~= head);
            }
        }
        let mut i = start_page;
        proof {
            assert(ps.subrange(0, 0) =~= Seq::<PageView>::empty());
            assert(content@ =~= head + Seq::<char>::empty());
        }
        while i < end_page
            invariant
                start_page <= i <= end_page <= pages@.len(),
                ps == pages_view(pages@).subrange(start_page as int, end_page as int),
                head == if preserve_structure {
                    header_text(ps[0].number, ps[ps.len() - 1].number)
                } else {
                    Seq::<char>::empty()
                },
                content@ == head + (if preserve_structure {
                    join_contents_sep(ps.subrange(0, i - start_page))
                } else {
                    concat_contents(ps.subrange(0, i - start_page))
                }),
            decreases end_page - i,
        {
            let ghost done = ps.subrange(0, i - start_page);
            if i > start_page && preserve_structure {
                content.append("\n\n---\n\n");
                proof {
                    reveal_strlit("\n\n---\n\n");
                    assert("\n\n---\n\n"@ =~= page_separator());
                }
            }
            let page = &pages[i];
            content.append(page.content.as_str());
            proof {
                assert(page@ == ps[i - start_page]);
                assert(ps.subrange(0, i - start_page + 1) =~= done.push(ps[i - start_page]));
                if preserve_structure {
                    lemma_join_contents_sep_push(done, ps[i - start_page]);
                    if i == start_page {
                        assert(content@ =~= head + join_contents_sep(
                            ps.subrange(0, i - start_page + 1),
                        ));
                    } else {
                        assert(content@ =~= head + join_contents_sep(
                            ps.subrange(0, i - start_page + 1),
                        ));
                    }
                } else {
                    lemma_concat_contents_push(done, ps[i - start_page]);
                    assert(content@ =~= head + concat_contents(
                        ps.subrange(0, i - start_page + 1),
                    ));
                }
            }
            i = i + 1;
        }
        proof {
            assert(ps.subrange(0, end_page - start_page) =~= ps);
            if preserve_structure {
                assert(content@ =~= spec_split_content(ps, preserve_structure));
            } else {
                assert(head + concat_contents(ps) =~= concat_contents(ps));
            }
        }
        content
    }

    /// Plan the split of a document: validate the request, partition the
    /// pages by ceiling division, and assemble each artifact's location and
    /// content together with the run's summary. Writing the artifacts out is
    /// the caller's concern.
    #[verifier::rlimit(100)]
    pub fn split_document(document: &MarkdownDocument, config: &SplitConfig) -> (r: Result<
        (SplitResult, Vec<SplitPart>),
        MarkdownSplitterError,
    >)
        requires
            document.wf(),
            document.total_pages <= usize::MAX / 2,
        ensures
            r is Ok <==> (1 <= config.splits <= document.total_pages),
            config.splits == 0 ==> (r matches Err(e) && e matches MarkdownSplitterError::SplitConfig
                { reason } && reason@ == "Number of splits must be greater than 0"@),
            config.splits >= 1 && document.total_pages == 0 ==> (r matches Err(e) && e matches
                MarkdownSplitterError::SplitConfig { reason } && reason@
                == "Document has no pages to split"@),
            config.splits >= 1 && 1 <= document.total_pages < config.splits ==> (r matches Err(e)
                && e matches MarkdownSplitterError::SplitConfig { reason } && reason@
                == "Number of splits ("@ + spec_decimal(config.splits as nat)
                + ") cannot exceed total pages ("@ + spec_decimal(document.total_pages as nat)
                + ")"@),
            r matches Ok((result, parts)) ==> ({
                let rs = spec_split_ranges(
                    document.total_pages as int,
                    ceil_div(document.total_pages as int, config.splits as int),
                    config.splits as int,
                    0,
                );
                &&& result.pages_per_split as int == ceil_div(
                    document.total_pages as int,
                    config.splits as int,
                )
                &&& parts@.len() == rs.len()
                &&& result.split_number == rs.len()
                &&& result.actual_pages == document.total_pages
                &&& result.output_files@.len() == rs.len()
                &&& forall|t: int|
                    0 <= t < rs.len() ==> spec_part_ok(
                        #[trigger] parts@[t],
                        result.output_files@[t]@,
                        *document,
                        *config,
                        rs,
                        t,
                    )
                &&& config.include_metadata ==> (result.metadata_file matches Some(m) && m@
                    == spec_join_path(
                    config.output_dir@,
                    spec_metadata_filename(document.source@),
                ))
                &&& !config.include_metadata ==> result.metadata_file is None
            }),
    {
        match Self::validate_split_config(document, config) {
            Err(e) => {
                return Err(e);
            },
            Ok(()) => {},
        }
        let total = document.total_pages;
        let splits = config.splits;
        let (pages_per_split, ranges) = Self::calculate_split_info(total, splits);
        let ghost rs = spec_split_ranges(total as int, pages_per_split as int, splits as int, 0);
        proof {
            lemma_split_ranges_partition(total as int, splits as int);
            assert forall|t: int| 0 <= t < rs.len() implies 1 <= (#[trigger] rs[t]).0 && rs[t].1
                <= total as int by {
                range_start_bound(rs, t);
                if t < rs.len() - 1 {
                    range_end_bound(rs, t, total as int);
                }
            }
        }
        let mut parts: Vec<SplitPart> = Vec::new();
        let mut output_files: Vec<String> = Vec::new();
        let mut actual_pages: usize = 0;
        let mut idx: usize = 0;
        proof {
            assert(rs.subrange(0, 0) =~= Seq::<(int, int)>::empty());
        }
        while idx < ranges.len()
            invariant
                0 <= idx <= ranges@.len(),
                document.wf(),
                document.total_pages <= usize::MAX / 2,
                total == document.total_pages,
                splits == config.splits,
                1 <= splits <= total,
                pages_per_split as int == ceil_div(total as int, splits as int),
                pair_seq(ranges@) == rs,
                rs.len() >= 1,
                rs[rs.len() - 1].1 == total,
                forall|t: int| 0 <= t < rs.len() ==> (#[trigger] rs[t]).0 <= rs[t].1,
                forall|t: int|
                    0 <= t < rs.len() ==> 1 <= (#[trigger] rs[t]).0 && rs[t].1 <= total as int,
                forall|t: int| 0 <= t < rs.len() - 1 ==> (#[trigger] rs[t]).1 + 1 == rs[t + 1].0,
                idx == 0 ==> actual_pages == 0,
                idx > 0 ==> actual_pages as int == rs[idx - 1].1,
                parts@.len() == idx,
                output_files@.len() == idx,
                forall|t: int|
                    0 <= t < idx ==> spec_part_ok(
                        #[trigger] parts@[t],
                        output_files@[t]@,
                        *document,
                        *config,
                        rs,
                        t,
                    ),
            decreases ranges@.len() - idx,
        {
            let pr = ranges[idx];
            proof {
                assert(rs[idx as int] == (pr.0 as int, pr.1 as int));
            }
            let start_page = pr.0 - 1;
            let end_page = pr.1;
            let filename = Self::generate_output_filename(
                config.output_dir.as_str(),
                document.source.as_str(),
                idx + 1,
                splits,
            );
            let content = Self::build_split_content(
                &document.pages,
                start_page,
                end_page,
                config.preserve_structure,
            );
            actual_pages = end_page;
            let ghost prev_parts = parts@;
            let ghost prev_files = output_files@;
            let part = SplitPart { filename: filename.clone(), content, start_page, end_page };
            proof {
                assert(spec_part_ok(part, filename@, *document, *config, rs, idx as int));
            }
            parts.push(part);
            output_files.push(filename);
            proof {
                assert forall|t: int|
                    0 <= t < idx + 1 implies spec_part_ok(
                    #[trigger] parts@[t],
                    output_files@[t]@,
                    *document,
                    *config,
                    rs,
                    t,
                ) by {
                    if t < idx {
                        assert(parts@[t] == prev_parts[t]);
                        assert(output_files@[t] == prev_files[t]);
                        assert(spec_part_ok(prev_parts[t], prev_files[t]@, *document, *config, rs, t));
                    }
                }
            }
            idx = idx + 1;
        }
        let metadata_file = if config.include_metadata {
            Some(
                Self::generate_metadata_filename(
                    config.output_dir.as_str(),
                    document.source.as_str(),
                ),
            )
        } else {
            None
        };
        let result = SplitResult {
            split_number: output_files.len(),
            pages_per_split,
            actual_pages,
            output_files,
            metadata_file,
        };
        Ok((result, parts))
    }
}

proof fn range_end_bound(rs: Seq<(int, int)>, t: int, total: int)
    requires
        0 <= t < rs.len() - 1,
        rs[rs.len() - 1].1 == total,
        forall|u: int| 0 <= u < rs.len() ==> (#[trigger] rs[u]).0 <= rs[u].1,
        forall|u: int| 0 <= u < rs.len() - 1 ==> (#[trigger] rs[u]).1 + 1 == rs[u + 1].0,
    ensures
        rs[t].1 <= total,
    decreases rs.len() - t,
{
    if t == rs.len() - 2 {
        assert(rs[t].1 + 1 == rs[t + 1].0);
    } else {
        range_end_bound(rs, t + 1, total);
        assert(rs[t].1 + 1 == rs[t + 1].0);
    }
}

} // verus!
