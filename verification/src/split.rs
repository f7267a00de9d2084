//! Splitting one document into parts: which page ranges become output
//! files, the pages each part keeps, and the name each part is saved under.

use vstd::prelude::*;
use lopdf::Document;
use crate::page_spec::{
    comma_pieces, first_page, item_of, last_page, parse_spec, spec_ranges, spec_well_formed,
    PageRange, PageSpecError,
};
use crate::pdf::{
    doc_dicts, doc_max_id, doc_streams, doc_version, doc_object_count, doc_object_ids, doc_trailer, finish_document,
    ids_at_most_max, kept_by_position, lemma_written_tree_is_linked, max_object_id, move_objects,
    new_document, no_entries, object_count, page_ids, page_tree_linked, range_filter,
    renumber_objects, renumbered_from, renumbered_pages, select_page_range, set_max_object_id,
    tree_written, AssembleError, PageTree,
};
use crate::text::{
    decimal, lemma_no_first_char, lemma_no_first_pair, lemma_replace_absent, lemma_replace_one,
    occurs_in, replace_all, replace_all_occurrences, to_decimal,
};
use crate::page_spec::lemma_decimal_reads_back;

verus! {

/// The file name that `pattern` yields for a part: `{base}`, `{start}`,
/// `{end}` and `{index}` are substituted in that order, each everywhere it
/// occurs in the text produced so far.
pub open spec fn filled_pattern(
    pattern: Seq<char>,
    base: Seq<char>,
    start: nat,
    end: nat,
    index: nat,
) -> Seq<char> {
    replace_all(
        replace_all(
            replace_all(replace_all(pattern, "{base}"@, base), "{start}"@, decimal(start)),
            "{end}"@,
            decimal(end),
        ),
        "{index}"@,
        decimal(index),
    )
}

/// Fills the output-name pattern of a split part.
pub fn fill_pattern(pattern: &str, base: &str, start: usize, end: usize, index: usize) -> (r:
    String)
    ensures
        r@ == filled_pattern(pattern@, base@, start as nat, end as nat, index as nat),
{
    proof {
        reveal_strlit("{base}");
        reveal_strlit("{start}");
        reveal_strlit("{end}");
        reveal_strlit("{index}");
    }
    let with_base = replace_all_occurrences(pattern, "{base}", base);
    let start_text = to_decimal(start);
    let with_start = replace_all_occurrences(with_base.as_str(), "{start}", start_text.as_str());
    let end_text = to_decimal(end);
    let with_end = replace_all_occurrences(with_start.as_str(), "{end}", end_text.as_str());
    let index_text = to_decimal(index);
    replace_all_occurrences(with_end.as_str(), "{index}", index_text.as_str())
}


/// A pattern that holds none of `{base}`, `{start}`, `{end}` and `{index}`
/// names every part the same: it is used as it is.
pub proof fn lemma_plain_pattern_kept(pattern: Seq<char>, base: Seq<char>, start: nat, end: nat, index: nat)
    requires
        !occurs_in(pattern, "{base}"@),
        !occurs_in(pattern, "{start}"@),
        !occurs_in(pattern, "{end}"@),
        !occurs_in(pattern, "{index}"@),
    ensures
        filled_pattern(pattern, base, start, end, index) == pattern,
{
    reveal_strlit("{base}");
    reveal_strlit("{start}");
    reveal_strlit("{end}");
    reveal_strlit("{index}");
    lemma_replace_absent(pattern, "{base}"@, base);
    lemma_replace_absent(pattern, "{start}"@, decimal(start));
    lemma_replace_absent(pattern, "{end}"@, decimal(end));
    lemma_replace_absent(pattern, "{index}"@, decimal(index));
}

/// Three texts without `c` joined hold no `c`.
proof fn lemma_joined_without(a: Seq<char>, b: Seq<char>, d: Seq<char>, c: char)
    requires
        !a.contains(c),
        !b.contains(c),
        !d.contains(c),
    ensures
        !(a + b + d).contains(c),
{
    let s = a + b + d;
    if s.contains(c) {
        let k = choose|k: int| 0 <= k < s.len() && s[k] == c;
        if k < a.len() {
            assert(a[k] == c);
        } else if k < a.len() + b.len() {
            assert(b[k - a.len()] == c);
        } else {
            assert(d[k - a.len() - b.len()] == c);
        }
    }
}

/// A decimal number holds no `{`.
proof fn lemma_decimal_no_brace(n: nat)
    ensures
        !decimal(n).contains('{'),
{
    lemma_decimal_reads_back(n);
    if decimal(n).contains('{') {
        let k = choose|k: int| 0 <= k < decimal(n).len() && decimal(n)[k] == '{';
        assert(crate::page_spec::is_digit(decimal(n)[k]));
    }
}

/// In `x P y`, with `x` and `y` free of `{` and `P` a placeholder, no
/// placeholder other than `P` occurs.
proof fn lemma_other_placeholder_absent(x: Seq<char>, y: Seq<char>, p: Seq<char>, q: Seq<char>)
    requires
        !x.contains('{'),
        !y.contains('{'),
        p.len() >= 2,
        q.len() >= 2,
        p[0] == '{',
        q[0] == '{',
        p[1] != q[1],
        forall|k: int| 1 <= k < p.len() ==> p[k] != '{',
    ensures
        !occurs_in(x + p + y, q),
{
    let s = x + p + y;
    assert forall|i: int| 0 <= i < s.len() - 1 && #[trigger] s[i] == q[0] implies s[i + 1] != q[1] by {
        if i < x.len() {
            assert(x[i] == '{');
        } else if i < x.len() + p.len() {
            if i > x.len() {
                assert(p[i - x.len()] == '{');
            } else {
                assert(s[i + 1] == p[1]);
            }
        } else {
            assert(y[i - x.len() - p.len()] == '{');
        }
    }
    lemma_no_first_pair(s, q);
}

/// Each placeholder stands for its value wherever it stands: a pattern
/// `x P y`, where `x` and `y` hold no `{` and `P` is one placeholder,
/// names the part `x`, then the value of `P`, then `y`: the base name
/// (itself without `{`) for `{base}`, and the decimal first page, last page
/// or position for `{start}`, `{end}` and `{index}`.
pub proof fn lemma_placeholder_filled(
    x: Seq<char>,
    y: Seq<char>,
    base: Seq<char>,
    start: nat,
    end: nat,
    index: nat,
)
    requires
        !x.contains('{'),
        !y.contains('{'),
        !base.contains('{'),
    ensures
        filled_pattern(x + "{base}"@ + y, base, start, end, index) == x + base + y,
        filled_pattern(x + "{start}"@ + y, base, start, end, index) == x + decimal(start) + y,
        filled_pattern(x + "{end}"@ + y, base, start, end, index) == x + decimal(end) + y,
        filled_pattern(x + "{index}"@ + y, base, start, end, index) == x + decimal(index) + y,
{
    reveal_strlit("{base}");
    reveal_strlit("{start}");
    reveal_strlit("{end}");
    reveal_strlit("{index}");
    let pb = "{base}"@;
    let ps = "{start}"@;
    let pe = "{end}"@;
    let pi = "{index}"@;
    let ds = decimal(start);
    let de = decimal(end);
    let di = decimal(index);
    lemma_decimal_no_brace(start);
    lemma_decimal_no_brace(end);
    lemma_decimal_no_brace(index);
    assert(pb[0] == '{' && ps[0] == '{' && pe[0] == '{' && pi[0] == '{');
    assert(forall|k: int| 1 <= k < pb.len() ==> pb[k] != '{');
    assert(forall|k: int| 1 <= k < ps.len() ==> ps[k] != '{');
    assert(forall|k: int| 1 <= k < pe.len() ==> pe[k] != '{');
    assert(forall|k: int| 1 <= k < pi.len() ==> pi[k] != '{');
    // `{base}`
    lemma_replace_one(x, y, pb, base);
    let w = x + base + y;
    lemma_joined_without(x, base, y, '{');
    lemma_no_first_char(w, ps);
    lemma_replace_absent(w, ps, ds);
    lemma_no_first_char(w, pe);
    lemma_replace_absent(w, pe, de);
    lemma_no_first_char(w, pi);
    lemma_replace_absent(w, pi, di);
    // `{start}`
    let p1 = x + ps + y;
    lemma_other_placeholder_absent(x, y, ps, pb);
    lemma_replace_absent(p1, pb, base);
    lemma_replace_one(x, y, ps, ds);
    let w1 = x + ds + y;
    lemma_joined_without(x, ds, y, '{');
    lemma_no_first_char(w1, pe);
    lemma_replace_absent(w1, pe, de);
    lemma_no_first_char(w1, pi);
    lemma_replace_absent(w1, pi, di);
    // `{end}`
    let p2 = x + pe + y;
    lemma_other_placeholder_absent(x, y, pe, pb);
    lemma_replace_absent(p2, pb, base);
    lemma_other_placeholder_absent(x, y, pe, ps);
    lemma_replace_absent(p2, ps, ds);
    lemma_replace_one(x, y, pe, de);
    let w2 = x + de + y;
    lemma_joined_without(x, de, y, '{');
    lemma_no_first_char(w2, pi);
    lemma_replace_absent(w2, pi, di);
    // `{index}`
    let p3 = x + pi + y;
    lemma_other_placeholder_absent(x, y, pi, pb);
    lemma_replace_absent(p3, pb, base);
    lemma_other_placeholder_absent(x, y, pi, ps);
    lemma_replace_absent(p3, ps, ds);
    lemma_other_placeholder_absent(x, y, pi, pe);
    lemma_replace_absent(p3, pe, de);
    lemma_replace_one(x, y, pi, di);
}

/// One output file of a split: pages `start` through `end` (one-based,
/// inclusive), and the one-based position of its range in the request.
#[derive(Clone, Copy, Debug, PartialEq, Eq)]
pub struct SplitPart {
    pub start: usize,
    pub end: usize,
    pub index: usize,
}

/// The parts of a split, and how many ranges were asked for (a range that
/// falls outside the document asks for a part that is not made).
#[derive(Debug)]
pub struct SplitPlan {
    pub parts: Vec<SplitPart>,
    pub group_count: usize,
}

/// Why a split could not be done.
#[derive(Debug)]
pub enum SplitError {
    /// The input document has no page.
    NoPages,
    /// Neither one file per page nor ranges were asked for.
    NoMode,
    /// The range specification is malformed.
    BadRanges(PageSpecError),
    /// Object numbers would run past `u32::MAX`.
    IdOverflow,
    /// The page tree of a part could not be written.
    Assemble(AssembleError),
}

/// One range per page: `1-1, 2-2, ..., total-total`.
pub open spec fn each_page_ranges(total: nat) -> Seq<PageRange> {
    Seq::new(total, |k: int| PageRange { start: (k + 1) as usize, end: Some((k + 1) as usize) })
}

/// The parts that `ranges` yield in a document of `total` pages: each range
/// clamped to pages `1..=total`, numbered by its position, and dropped when
/// nothing of it is left.
pub open spec fn parts_of(ranges: Seq<PageRange>, total: nat) -> Seq<SplitPart>
    decreases ranges.len(),
{
    if ranges.len() == 0 {
        Seq::empty()
    } else {
        let rest = parts_of(ranges.drop_last(), total);
        let g = ranges.last();
        if first_page(g) <= last_page(g, total) {
            rest.push(
                SplitPart {
                    start: first_page(g) as usize,
                    end: last_page(g, total) as usize,
                    index: ranges.len() as usize,
                },
            )
        } else {
            rest
        }
    }
}

fn parts_from_ranges(ranges: &Vec<PageRange>, total: usize) -> (r: Vec<SplitPart>)
    ensures
        r@ == parts_of(ranges@, total as nat),
{
    let mut out: Vec<SplitPart> = Vec::new();
    let mut j: usize = 0;
    assert(ranges@.take(0) =~= Seq::<PageRange>::empty());
    while j < ranges.len()
        invariant
            j <= ranges@.len(),
            out@ == parts_of(ranges@.take(j as int), total as nat),
        decreases ranges@.len() - j,
    {
        let g = ranges[j];
        let start: usize = if g.start < 1 { 1 } else { g.start };
        let end: usize = match g.end {
            Some(e) => if e < total { e } else { total },
            None => total,
        };
        assert(ranges@.take(j + 1).drop_last() =~= ranges@.take(j as int));
        assert(ranges@.take(j + 1).last() == g);
        if end >= start {
            out.push(SplitPart { start, end, index: j + 1 });
        }
        j = j + 1;
    }
    assert(ranges@.take(j as int) =~= ranges@);
    out
}

/// Decides the parts of a split of a document of `total_pages` pages: one
/// per page when `each` is set, else one per range of `ranges_spec`.
pub fn plan_split(total_pages: usize, each: bool, ranges_spec: Option<&str>) -> (r: Result<
    SplitPlan,
    SplitError,
>)
    ensures
        total_pages == 0 ==> r matches Err(SplitError::NoPages),
        total_pages > 0 && each ==> (r matches Ok(v) && v.parts@ == parts_of(
            each_page_ranges(total_pages as nat),
            total_pages as nat,
        ) && v.group_count == total_pages),
        total_pages > 0 && !each ==> match ranges_spec {
            None => r matches Err(SplitError::NoMode),
            Some(s) => if spec_well_formed(s@) {
                (r matches Ok(v) && v.parts@ == parts_of(spec_ranges(s@), total_pages as nat)
                    && v.group_count == spec_ranges(s@).len())
            } else {
                (r matches Err(SplitError::BadRanges(e)) && e.item < comma_pieces(s@).len() && item_of(
                    comma_pieces(s@)[e.item as int],
                ) is None && forall|j: int|
                    0 <= j < e.item ==> (#[trigger] item_of(comma_pieces(s@)[j])) is Some)
            },
        },
{
    if total_pages == 0 {
        return Err(SplitError::NoPages);
    }
    let ranges: Vec<PageRange> = if each {
        let mut v: Vec<PageRange> = Vec::new();
        let mut k: usize = 0;
        assert(v@ =~= each_page_ranges(0));
        while k < total_pages
            invariant
                k <= total_pages,
                v@ == each_page_ranges(k as nat),
            decreases total_pages - k,
        {
            v.push(PageRange { start: k + 1, end: Some(k + 1) });
            assert(v@ =~= each_page_ranges((k + 1) as nat));
            k = k + 1;
        }
        v
    } else {
        match ranges_spec {
            Some(text) => match parse_spec(text) {
                Ok(v) => v,
                Err(e) => {
                    return Err(SplitError::BadRanges(e));
                },
            },
            None => {
                return Err(SplitError::NoMode);
            },
        }
    };
    let group_count = ranges.len();
    Ok(SplitPlan { parts: parts_from_ranges(&ranges, total_pages), group_count })
}

/// Each range gives the part of its pages inside the document, numbered
/// by its position among the ranges: a range `a-b` with
/// `1 <= a <= b <= total` gives pages `a..=b`, an open range `a-` with
/// `1 <= a <= total` gives pages `a..=total`, a range whose end lies past
/// the document is cut at the last page, a range that starts past the last
/// page or ends before it starts gives no part, and a start of 0 counts as
/// 1.
pub proof fn lemma_part_of_range(rs: Seq<PageRange>, r: PageRange, total: usize)
    ensures
        1 <= r.start && r.end is Some && r.start <= r.end->0 <= total ==> parts_of(
            rs.push(r),
            total as nat,
        ) == parts_of(rs, total as nat).push(
            SplitPart { start: r.start, end: r.end->0, index: (rs.len() + 1) as usize },
        ),
        1 <= r.start && r.end is Some && r.start <= total < r.end->0 ==> parts_of(
            rs.push(r),
            total as nat,
        ) == parts_of(rs, total as nat).push(
            SplitPart { start: r.start, end: total, index: (rs.len() + 1) as usize },
        ),
        1 <= r.start && r.end is None && r.start <= total ==> parts_of(rs.push(r), total as nat)
            == parts_of(rs, total as nat).push(
            SplitPart { start: r.start, end: total, index: (rs.len() + 1) as usize },
        ),
        r.start > total || (r.end is Some && r.end->0 < r.start && r.start >= 1) ==> parts_of(
            rs.push(r),
            total as nat,
        ) == parts_of(rs, total as nat),
        r.start == 0 ==> parts_of(rs.push(r), total as nat) == parts_of(
            rs.push(PageRange { start: 1, end: r.end }),
            total as nat,
        ),
{
    assert(rs.push(r).drop_last() =~= rs);
    assert(rs.push(PageRange { start: 1, end: r.end }).drop_last() =~= rs);
}

/// Splitting page by page gives one part per page, in page order: part
/// `k` (zero-based) holds page `k + 1` alone and is numbered `k + 1`.
pub proof fn lemma_each_page_parts(total: usize)
    ensures
        parts_of(each_page_ranges(total as nat), total as nat) == Seq::new(
            total as nat,
            |k: int| SplitPart { start: (k + 1) as usize, end: (k + 1) as usize, index: (k + 1) as usize },
        ),
    decreases total,
{
    if total > 0 {
        lemma_each_page_parts((total - 1) as usize);
        let smaller = each_page_ranges((total - 1) as nat);
        let all = each_page_ranges(total as nat);
        assert(all.drop_last() =~= smaller);
        lemma_parts_of_total_free(smaller, (total - 1) as nat, total as nat);
        assert(parts_of(all, total as nat) =~= Seq::new(
            total as nat,
            |k: int| SplitPart { start: (k + 1) as usize, end: (k + 1) as usize, index: (k + 1) as usize },
        ));
    }
}

/// While no range reaches past the smaller page count, a larger page count
/// yields the same parts.
proof fn lemma_parts_of_total_free(ranges: Seq<PageRange>, t1: nat, t2: nat)
    requires
        t1 <= t2,
        forall|j: int|
            0 <= j < ranges.len() ==> ((#[trigger] ranges[j]).end matches Some(e) && e <= t1),
    ensures
        parts_of(ranges, t1) == parts_of(ranges, t2),
    decreases ranges.len(),
{
    if ranges.len() > 0 {
        lemma_parts_of_total_free(ranges.drop_last(), t1, t2);
        assert(ranges.last() == ranges[ranges.len() - 1]);
    }
}

/// A document made of some pages of another one, with its page tree.
pub struct ExtractedPart {
    pub document: Document,
    pub pages: Vec<(u32, u16)>,
    pub tree: PageTree,
}

/// Builds the document of one part: a PDF 1.5 document that takes over
/// every object of `pdf`, renumbered from 1, and lists pages `start`
/// through `end` of it under a page tree written after those objects (see
/// `finish_document`).
pub fn extract_pages(pdf: Document, start: usize, end: usize) -> (r: Result<
    ExtractedPart,
    SplitError,
>)
    ensures
        match r {
            Ok(part) => {
                &&& doc_object_count(pdf) + 1 <= u32::MAX
                &&& part.pages@ == kept_by_position(renumbered_pages(pdf, 1), range_filter(start as int, end as int))
                &&& exists|moved: Document, body: Document|
                    #![trigger renumbered_from(pdf, moved, 1u32), tree_written(body, part.document, part.pages@, part.tree)]
                    renumbered_from(pdf, moved, 1u32)
                    && doc_object_ids(body) == doc_object_ids(moved)
                    && doc_dicts(body) == doc_dicts(moved)
                    && doc_streams(body) == doc_streams(moved)
                    && doc_trailer(body) == no_entries()
                    && doc_max_id(body) == doc_max_id(moved)
                    && tree_written(body, part.document, part.pages@, part.tree)
                &&& page_tree_linked(part.document, part.pages@, part.tree)
                &&& doc_version(part.document) == "1.5"@
            },
            Err(SplitError::IdOverflow) => doc_object_count(pdf) + 1 > u32::MAX,
            Err(SplitError::Assemble(AssembleError::IdOverflow)) => doc_object_count(pdf) + 1
                == u32::MAX,
            Err(SplitError::Assemble(AssembleError::PageNotFound(id))) => {
                &&& kept_by_position(renumbered_pages(pdf, 1), range_filter(start as int, end as int)).contains(id)
                &&& exists|moved: Document|
                    #[trigger] renumbered_from(pdf, moved, 1u32) && !doc_object_ids(moved).contains(id)
            },
            Err(SplitError::Assemble(AssembleError::PageNotDictionary(id))) => {
                &&& kept_by_position(renumbered_pages(pdf, 1), range_filter(start as int, end as int)).contains(id)
                &&& exists|moved: Document|
                    #[trigger] renumbered_from(pdf, moved, 1u32) && doc_object_ids(moved).contains(id)
                        && !doc_dicts(moved).contains_key(id)
            },
            Err(_) => false,
        },
{
    let ghost pdf_in = pdf;
    let mut part = pdf;
    let mut out_doc = new_document("1.5");
    let count = object_count(&part);
    if count >= 4294967295usize {
        return Err(SplitError::IdOverflow);
    }
    let offset = max_object_id(&out_doc) + 1;
    renumber_objects(&mut part, offset);
    let new_max = max_object_id(&part);
    set_max_object_id(&mut out_doc, new_max);
    let pages = page_ids(&part);
    let selected = select_page_range(&pages, start, end);
    let ghost moved = part;
    move_objects(&mut out_doc, part);
    let ghost body = out_doc;
    proof {
        assert(renumbered_from(pdf_in, moved, 1u32));
        assert(doc_object_ids(body) =~= doc_object_ids(moved));
        assert(doc_dicts(body) =~= doc_dicts(moved));
        assert(doc_streams(body) =~= doc_streams(moved));
        assert(ids_at_most_max(body));
    }
    match finish_document(&mut out_doc, &selected) {
        Ok(t) => {
            proof {
                lemma_written_tree_is_linked(body, out_doc, selected@, t);
            }
            Ok(ExtractedPart { document: out_doc, pages: selected, tree: t })
        },
        Err(e) => {
            proof {
                assert(renumbered_from(pdf_in, moved, 1u32));
            }
            Err(SplitError::Assemble(e))
        },
    }
}

} // verus!
