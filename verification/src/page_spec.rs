//! Page-range specifications such as `1-3,5,10-`: their grammar, and the
//! zero-based page indices that a list of ranges selects in a document.

use vstd::prelude::*;
use crate::text::{chars_of, decimal, digit_char};

verus! {

/// One item of a page-range specification: pages `start` through `end`,
/// both one-based and inclusive; `end == None` means "to the last page".
#[derive(Clone, Copy, Debug, PartialEq, Eq)]
pub struct PageRange {
    pub start: usize,
    pub end: Option<usize>,
}

/// A page-range specification that could not be read: `item` is the
/// zero-based position of the first comma-separated item that is malformed.
#[derive(Clone, Copy, Debug, PartialEq, Eq)]
pub struct PageSpecError {
    pub item: usize,
}

pub open spec fn is_digit(c: char) -> bool {
    '0' <= c <= '9'
}

pub open spec fn is_blank(c: char) -> bool {
    c == ' ' || c == '\t'
}

pub open spec fn all_digits(s: Seq<char>) -> bool {
    forall|i: int| 0 <= i < s.len() ==> is_digit(#[trigger] s[i])
}

/// The value of a string of decimal digits.
pub open spec fn digits_value(s: Seq<char>) -> nat
    decreases s.len(),
{
    if s.len() == 0 {
        0
    } else {
        digits_value(s.drop_last()) * 10 + ((s.last() as nat) - 48) as nat
    }
}

/// A page number: one or more decimal digits whose value fits in `usize`.
pub open spec fn number_of(s: Seq<char>) -> Option<usize> {
    if s.len() > 0 && all_digits(s) && digits_value(s) <= usize::MAX {
        Some(digits_value(s) as usize)
    } else {
        None
    }
}

pub open spec fn trim_start(s: Seq<char>) -> Seq<char>
    decreases s.len(),
{
    if s.len() > 0 && is_blank(s[0]) {
        trim_start(s.skip(1))
    } else {
        s
    }
}

pub open spec fn trim_end(s: Seq<char>) -> Seq<char>
    decreases s.len(),
{
    if s.len() > 0 && is_blank(s.last()) {
        trim_end(s.drop_last())
    } else {
        s
    }
}

/// `s` without its leading and trailing blanks (spaces and tabs).
pub open spec fn trim(s: Seq<char>) -> Seq<char> {
    trim_end(trim_start(s))
}

/// Position of the first `c` in `s`, if any.
pub open spec fn first_index_of(s: Seq<char>, c: char) -> Option<int>
    decreases s.len(),
{
    if s.len() == 0 {
        None
    } else if s[0] == c {
        Some(0)
    } else {
        match first_index_of(s.skip(1), c) {
            Some(i) => Some(i + 1),
            None => None,
        }
    }
}

/// One item, blanks around it ignored: `N` (page N alone), `N-` (page N to
/// the end) or `N-M` (pages N to M); blanks may stand around `-`.
pub open spec fn item_of(s: Seq<char>) -> Option<PageRange> {
    let t = trim(s);
    match first_index_of(t, '-') {
        None => match number_of(t) {
            Some(n) => Some(PageRange { start: n, end: Some(n) }),
            None => None,
        },
        Some(d) => {
            let left = trim(t.take(d));
            let right = trim(t.skip(d + 1));
            match number_of(left) {
                None => None,
                Some(a) => if right.len() == 0 {
                    Some(PageRange { start: a, end: None })
                } else {
                    match number_of(right) {
                        Some(b) => Some(PageRange { start: a, end: Some(b) }),
                        None => None,
                    }
                },
            }
        },
    }
}

/// The comma-separated pieces of `s` (a string without commas is one piece).
pub open spec fn comma_pieces(s: Seq<char>) -> Seq<Seq<char>>
    decreases s.len(),
{
    if s.len() == 0 {
        seq![Seq::<char>::empty()]
    } else {
        let r = comma_pieces(s.drop_last());
        if s.last() == ',' {
            r.push(Seq::<char>::empty())
        } else {
            r.update(r.len() - 1, r.last().push(s.last()))
        }
    }
}

/// Every piece of `s` is a well-formed item.
pub open spec fn spec_well_formed(s: Seq<char>) -> bool {
    forall|j: int| 0 <= j < comma_pieces(s).len() ==> (#[trigger] item_of(comma_pieces(s)[j])) is Some
}

/// The ranges that a well-formed specification lists, in order.
pub open spec fn spec_ranges(s: Seq<char>) -> Seq<PageRange> {
    Seq::new(comma_pieces(s).len(), |j: int| item_of(comma_pieces(s)[j])->0)
}


proof fn lemma_trim_start_skip(s: Seq<char>, a: int)
    requires
        0 <= a <= s.len(),
        forall|j: int| 0 <= j < a ==> is_blank(#[trigger] s[j]),
    ensures
        trim_start(s) == trim_start(s.skip(a)),
    decreases a,
{
    if a > 0 {
        lemma_trim_start_skip(s, a - 1);
        assert(s.skip(a - 1).skip(1) =~= s.skip(a));
        assert(s.skip(a - 1)[0] == s[a - 1]);
    } else {
        assert(s.skip(0) =~= s);
    }
}

proof fn lemma_trim_end_take(s: Seq<char>, b: int)
    requires
        0 <= b <= s.len(),
        forall|j: int| b <= j < s.len() ==> is_blank(#[trigger] s[j]),
    ensures
        trim_end(s) == trim_end(s.take(b)),
    decreases s.len() - b,
{
    if b < s.len() {
        lemma_trim_end_take(s, b + 1);
        assert(s.take(b + 1).drop_last() =~= s.take(b));
        assert(s.take(b + 1).last() == s[b]);
    } else {
        assert(s.take(b) =~= s);
    }
}

/// The bounds of `trim(cs[lo..hi])` inside `cs`.
fn trim_range(cs: &Vec<char>, lo: usize, hi: usize) -> (r: (usize, usize))
    requires
        lo <= hi <= cs@.len(),
    ensures
        lo <= r.0 <= r.1 <= hi,
        cs@.subrange(r.0 as int, r.1 as int) == trim(cs@.subrange(lo as int, hi as int)),
{
    let ghost s = cs@.subrange(lo as int, hi as int);
    let mut a = lo;
    while a < hi && (cs[a] == ' ' || cs[a] == '\t')
        invariant
            lo <= a <= hi <= cs@.len(),
            s == cs@.subrange(lo as int, hi as int),
            forall|j: int| lo <= j < a ==> is_blank(#[trigger] cs@[j]),
        decreases hi - a,
    {
        a = a + 1;
    }
    proof {
        assert forall|j: int| 0 <= j < a - lo implies is_blank(#[trigger] s[j]) by {
            assert(s[j] == cs@[lo + j]);
        }
        lemma_trim_start_skip(s, a - lo);
        assert(s.skip(a - lo) =~= cs@.subrange(a as int, hi as int));
        let t = cs@.subrange(a as int, hi as int);
        if t.len() > 0 {
            assert(t[0] == cs@[a as int]);
        }
        assert(trim_start(s) == t);
    }
    let ghost t = cs@.subrange(a as int, hi as int);
    let mut b = hi;
    while b > a && (cs[b - 1] == ' ' || cs[b - 1] == '\t')
        invariant
            lo <= a <= b <= hi <= cs@.len(),
            t == cs@.subrange(a as int, hi as int),
            forall|j: int| b <= j < hi ==> is_blank(#[trigger] cs@[j]),
        decreases b - a,
    {
        b = b - 1;
    }
    proof {
        assert forall|j: int| b - a <= j < t.len() implies is_blank(#[trigger] t[j]) by {
            assert(t[j] == cs@[a + j]);
        }
        lemma_trim_end_take(t, b - a);
        let u = cs@.subrange(a as int, b as int);
        assert(t.take(b - a) =~= u);
        if u.len() > 0 {
            assert(u.last() == cs@[b - 1]);
        }
        assert(trim_end(u) == u);
    }
    (a, b)
}

proof fn lemma_first_index_of(s: Seq<char>, c: char, i: int)
    requires
        0 <= i <= s.len(),
        forall|j: int| 0 <= j < i ==> s[j] != c,
    ensures
        i < s.len() && s[i] == c ==> first_index_of(s, c) == Some(i),
        i == s.len() ==> first_index_of(s, c) is None,
    decreases i,
{
    if i > 0 {
        let t = s.skip(1);
        assert forall|j: int| 0 <= j < i - 1 implies t[j] != c by {
            assert(t[j] == s[j + 1]);
        }
        lemma_first_index_of(t, c, i - 1);
        if i < s.len() {
            assert(t[i - 1] == s[i]);
        }
    }
}

/// Position of the first `c` in `cs[lo..hi]`, counted from `lo`.
fn find_char(cs: &Vec<char>, lo: usize, hi: usize, c: char) -> (r: Option<usize>)
    requires
        lo <= hi <= cs@.len(),
    ensures
        match r {
            Some(k) => k < hi - lo && first_index_of(cs@.subrange(lo as int, hi as int), c)
                == Some(k as int),
            None => first_index_of(cs@.subrange(lo as int, hi as int), c) is None,
        },
{
    let ghost s = cs@.subrange(lo as int, hi as int);
    let mut i = lo;
    while i < hi
        invariant
            lo <= i <= hi <= cs@.len(),
            s == cs@.subrange(lo as int, hi as int),
            forall|j: int| lo <= j < i ==> cs@[j] != c,
        decreases hi - i,
    {
        if cs[i] == c {
            proof {
                assert forall|j: int| 0 <= j < i - lo implies s[j] != c by {
                    assert(s[j] == cs@[lo + j]);
                }
                assert(s[i - lo] == cs@[i as int]);
                lemma_first_index_of(s, c, i - lo);
            }
            return Some(i - lo);
        }
        i = i + 1;
    }
    proof {
        assert forall|j: int| 0 <= j < hi - lo implies s[j] != c by {
            assert(s[j] == cs@[lo + j]);
        }
        lemma_first_index_of(s, c, hi - lo);
    }
    None
}

proof fn lemma_digits_prefix_bound(s: Seq<char>, k: int)
    requires
        0 <= k <= s.len(),
    ensures
        digits_value(s.take(k)) <= digits_value(s),
    decreases s.len(),
{
    if k < s.len() {
        assert(s.drop_last().take(k) =~= s.take(k));
        lemma_digits_prefix_bound(s.drop_last(), k);
    } else {
        assert(s.take(k) =~= s);
    }
}

/// Reads the page number written in `cs[lo..hi]`.
fn parse_number(cs: &Vec<char>, lo: usize, hi: usize) -> (r: Option<usize>)
    requires
        lo <= hi <= cs@.len(),
    ensures
        r == number_of(cs@.subrange(lo as int, hi as int)),
{
    let ghost s = cs@.subrange(lo as int, hi as int);
    if lo == hi {
        return None;
    }
    let mut v: usize = 0;
    let mut i = lo;
    assert(s.take(0) =~= Seq::<char>::empty());
    while i < hi
        invariant
            lo <= i <= hi <= cs@.len(),
            s == cs@.subrange(lo as int, hi as int),
            all_digits(s.take(i - lo)),
            v as nat == digits_value(s.take(i - lo)),
        decreases hi - i,
    {
        let c = cs[i];
        assert(s[i - lo] == c);
        if !('0' <= c && c <= '9') {
            assert(!all_digits(s));
            return None;
        }
        let d = (c as u32 - 48) as usize;
        assert(s.take(i - lo + 1).drop_last() =~= s.take(i - lo));
        assert(s.take(i - lo + 1).last() == c);
        match v.checked_mul(10) {
            Some(x) => match x.checked_add(d) {
                Some(y) => {
                    v = y;
                },
                None => {
                    proof {
                        lemma_digits_prefix_bound(s, i - lo + 1);
                    }
                    return None;
                },
            },
            None => {
                proof {
                    lemma_digits_prefix_bound(s, i - lo + 1);
                }
                return None;
            },
        }
        proof {
            assert forall|j: int| 0 <= j < i - lo + 1 implies is_digit(#[trigger] s.take(i - lo + 1)[j]) by {
                if j < i - lo {
                    assert(s.take(i - lo + 1)[j] == s.take(i - lo)[j]);
                }
            }
        }
        i = i + 1;
    }
    assert(s.take(hi - lo) =~= s);
    Some(v)
}


/// Reads one item written in `cs[lo..hi]`.
fn parse_item(cs: &Vec<char>, lo: usize, hi: usize) -> (r: Option<PageRange>)
    requires
        lo <= hi <= cs@.len(),
    ensures
        r == item_of(cs@.subrange(lo as int, hi as int)),
{
    let (a, b) = trim_range(cs, lo, hi);
    let ghost t = cs@.subrange(a as int, b as int);
    match find_char(cs, a, b, '-') {
        None => match parse_number(cs, a, b) {
            Some(n) => Some(PageRange { start: n, end: Some(n) }),
            None => None,
        },
        Some(k) => {
            let d = a + k;
            assert(t.take(k as int) =~= cs@.subrange(a as int, d as int));
            assert(t.skip(k + 1) =~= cs@.subrange(d + 1, b as int));
            let (la, lb) = trim_range(cs, a, d);
            let (ra, rb) = trim_range(cs, d + 1, b);
            match parse_number(cs, la, lb) {
                None => None,
                Some(x) => {
                    if ra == rb {
                        Some(PageRange { start: x, end: None })
                    } else {
                        match parse_number(cs, ra, rb) {
                            Some(y) => Some(PageRange { start: x, end: Some(y) }),
                            None => None,
                        }
                    }
                },
            }
        },
    }
}

proof fn lemma_pieces_step(s: Seq<char>, k: int)
    requires
        0 <= k < s.len(),
    ensures
        comma_pieces(s.take(k + 1)) == (if s[k] == ',' {
            comma_pieces(s.take(k)).push(Seq::<char>::empty())
        } else {
            comma_pieces(s.take(k)).update(
                comma_pieces(s.take(k)).len() - 1,
                comma_pieces(s.take(k)).last().push(s[k]),
            )
        }),
{
    assert(s.take(k + 1).drop_last() =~= s.take(k));
    assert(s.take(k + 1).last() == s[k]);
}

proof fn lemma_pieces_nonempty(s: Seq<char>)
    ensures
        comma_pieces(s).len() >= 1,
    decreases s.len(),
{
    if s.len() > 0 {
        lemma_pieces_nonempty(s.drop_last());
    }
}

/// Pieces that are closed by a comma in a prefix of `s` stay the same
/// pieces of every longer prefix.
proof fn lemma_pieces_stable(s: Seq<char>, k: int, n: int)
    requires
        0 <= k <= n <= s.len(),
    ensures
        comma_pieces(s.take(k)).len() <= comma_pieces(s.take(n)).len(),
        forall|j: int|
            0 <= j < comma_pieces(s.take(k)).len() - 1 ==> comma_pieces(s.take(n))[j]
                == comma_pieces(s.take(k))[j],
    decreases n - k,
{
    if k < n {
        lemma_pieces_stable(s, k, n - 1);
        lemma_pieces_step(s, n - 1);
        lemma_pieces_nonempty(s.take(n - 1));
    }
}

/// Reads a page-range specification such as `1-3,5,10-`.
pub fn parse_spec(spec: &str) -> (r: Result<Vec<PageRange>, PageSpecError>)
    ensures
        match r {
            Ok(v) => spec_well_formed(spec@) && v@ == spec_ranges(spec@),
            Err(e) => {
                &&& !spec_well_formed(spec@)
                &&& e.item < comma_pieces(spec@).len()
                &&& item_of(comma_pieces(spec@)[e.item as int]) is None
                &&& forall|j: int| 0 <= j < e.item ==> (#[trigger] item_of(comma_pieces(spec@)[j])) is Some
            },
        },
{
    let cs = chars_of(spec);
    let n = cs.len();
    let ghost s = spec@;
    let mut out: Vec<PageRange> = Vec::new();
    let mut seg: usize = 0;
    let mut i: usize = 0;
    assert(s.take(0) =~= Seq::<char>::empty());
    assert(s.subrange(0, 0) =~= Seq::<char>::empty());
    while i < n
        invariant
            s == spec@,
            cs@ == s,
            n == s.len(),
            seg <= i <= n,
            comma_pieces(s.take(i as int)).len() == out@.len() + 1,
            comma_pieces(s.take(i as int)).last() == s.subrange(seg as int, i as int),
            forall|j: int|
                0 <= j < out@.len() ==> item_of(#[trigger] comma_pieces(s.take(i as int))[j])
                    == Some(out@[j]),
        decreases n - i,
    {
        proof {
            lemma_pieces_step(s, i as int);
        }
        if cs[i] == ',' {
            let item = parse_item(&cs, seg, i);
            match item {
                None => {
                    proof {
                        lemma_pieces_stable(s, i + 1, n as int);
                        assert(s.take(n as int) =~= s);
                        let p = comma_pieces(s);
                        assert(p[out@.len() as int] == s.subrange(seg as int, i as int));
                        assert(item_of(p[out@.len() as int]) is None);
                        assert(!spec_well_formed(s));
                        assert forall|j: int| 0 <= j < out@.len() implies (#[trigger] item_of(
                            p[j],
                        )) is Some by {
                            assert(p[j] == comma_pieces(s.take(i as int))[j]);
                        }
                    }
                    return Err(PageSpecError { item: out.len() });
                },
                Some(range) => {
                    out.push(range);
                },
            }
            i = i + 1;
            seg = i;
            assert(s.subrange(seg as int, i as int) =~= Seq::<char>::empty());
        } else {
            assert(s.subrange(seg as int, i + 1) =~= s.subrange(seg as int, i as int).push(s[i as int]));
            i = i + 1;
        }
    }
    assert(s.take(n as int) =~= s);
    let last = parse_item(&cs, seg, n);
    match last {
        None => {
            proof {
                let p = comma_pieces(s);
                assert(item_of(p[out@.len() as int]) is None);
                assert(!spec_well_formed(s));
            }
            Err(PageSpecError { item: out.len() })
        },
        Some(range) => {
            out.push(range);
            proof {
                let p = comma_pieces(s);
                assert forall|j: int| 0 <= j < p.len() implies (#[trigger] item_of(p[j])) is Some by {
                    if j < out@.len() - 1 {
                        assert(item_of(p[j]) == Some(out@[j]));
                    }
                }
                assert(out@ =~= spec_ranges(s));
            }
            Ok(out)
        },
    }
}


/// First page (one-based) that `r` selects: its start, raised to 1.
pub open spec fn first_page(r: PageRange) -> int {
    if r.start < 1 {
        1
    } else {
        r.start as int
    }
}

/// Last page (one-based) that `r` selects in a document of `total` pages:
/// its end, or the last page when open, lowered to `total`.
pub open spec fn last_page(r: PageRange, total: nat) -> int {
    match r.end {
        Some(e) => if e < total {
            e as int
        } else {
            total as int
        },
        None => total as int,
    }
}

/// Zero-based indices of the pages that `r` selects, in page order.
pub open spec fn range_indices(r: PageRange, total: nat) -> Seq<usize> {
    let count = if last_page(r, total) >= first_page(r) {
        (last_page(r, total) - first_page(r) + 1) as nat
    } else {
        0
    };
    Seq::new(count, |k: int| (first_page(r) - 1 + k) as usize)
}

/// Zero-based indices that a list of ranges selects: those of each range,
/// one range after the other.
pub open spec fn expanded(rs: Seq<PageRange>, total: nat) -> Seq<usize>
    decreases rs.len(),
{
    if rs.len() == 0 {
        Seq::empty()
    } else {
        expanded(rs.drop_last(), total) + range_indices(rs.last(), total)
    }
}

/// Turns ranges into the zero-based indices of the pages they select in a
/// document of `total` pages.
pub fn expand_to_indexes(ranges: &Vec<PageRange>, total: usize) -> (r: Vec<usize>)
    ensures
        r@ == expanded(ranges@, total as nat),
{
    let mut out: Vec<usize> = Vec::new();
    let mut j: usize = 0;
    assert(ranges@.take(0) =~= Seq::<PageRange>::empty());
    while j < ranges.len()
        invariant
            j <= ranges@.len(),
            out@ == expanded(ranges@.take(j as int), total as nat),
        decreases ranges@.len() - j,
    {
        let r = ranges[j];
        let first: usize = if r.start < 1 { 1 } else { r.start };
        let last: usize = match r.end {
            Some(e) => if e < total { e } else { total },
            None => total,
        };
        let ghost before = out@;
        if first <= last {
            let mut p = first;
            loop
                invariant_except_break
                    1 <= first <= p <= last,
                    out@ == before + Seq::new((p - first) as nat, |k: int| (first - 1 + k) as usize),
                ensures
                    out@ == before + Seq::new((last + 1 - first) as nat, |k: int| (first - 1 + k) as usize),
                decreases last - p,
            {
                out.push(p - 1);
                assert(out@ =~= before + Seq::new((p + 1 - first) as nat, |k: int| (first - 1 + k) as usize));
                if p == last {
                    break;
                }
                p = p + 1;
            }
        }
        proof {
            let ri = range_indices(r, total as nat);
            assert(out@ =~= before + ri);
            assert(ranges@.take(j + 1).drop_last() =~= ranges@.take(j as int));
            assert(ranges@.take(j + 1).last() == r);
        }
        j = j + 1;
    }
    assert(ranges@.take(j as int) =~= ranges@);
    out
}

/// Page index `i` (zero-based) is selected by a list of ranges exactly when
/// some range covers page `i + 1`: the order of the ranges and overlaps
/// between them do not change which pages are selected.
pub proof fn lemma_selected_iff_covered(rs: Seq<PageRange>, total: usize, i: usize)
    ensures
        expanded(rs, total as nat).contains(i) <==> exists|j: int|
            0 <= j < rs.len() && first_page(#[trigger] rs[j]) <= i + 1 <= last_page(rs[j], total as nat),
    decreases rs.len(),
{
    if rs.len() > 0 {
        let init = rs.drop_last();
        lemma_selected_iff_covered(init, total, i);
        let r = rs.last();
        let ri = range_indices(r, total as nat);
        let e = expanded(rs, total as nat);
        if e.contains(i) {
            let k = choose|k: int| 0 <= k < e.len() && e[k] == i;
            if k < expanded(init, total as nat).len() {
                assert(expanded(init, total as nat)[k] == i);
                let j = choose|j: int|
                    0 <= j < init.len() && first_page(#[trigger] init[j]) <= i + 1 <= last_page(
                        init[j],
                        total as nat,
                    );
                assert(rs[j] == init[j]);
                assert(first_page(rs[j]) <= i + 1 <= last_page(rs[j], total as nat));
            } else {
                let q = k - expanded(init, total as nat).len();
                assert(ri[q] == i);
                assert(first_page(r) - 1 + q <= last_page(r, total as nat) - 1);
                assert(rs[rs.len() - 1] == r);
                assert(first_page(rs[rs.len() - 1]) <= i + 1 <= last_page(rs[rs.len() - 1], total as nat));
            }
        }
        if exists|j: int|
            0 <= j < rs.len() && first_page(#[trigger] rs[j]) <= i + 1 <= last_page(rs[j], total as nat) {
            let j = choose|j: int|
                0 <= j < rs.len() && first_page(#[trigger] rs[j]) <= i + 1 <= last_page(rs[j], total as nat);
            if j < rs.len() - 1 {
                assert(init[j] == rs[j]);
                let k = choose|k: int| 0 <= k < expanded(init, total as nat).len() && expanded(init, total as nat)[k] == i;
                assert(e[k] == i);
                assert(e.contains(i));
            } else {
                let q = i + 1 - first_page(r);
                assert(ri[q] == i);
                assert(e[expanded(init, total as nat).len() + q] == i);
                assert(e.contains(i));
            }
        }
    }
}

/// The decimal rendering of `n` is a string of digits that reads back as
/// `n`.
pub proof fn lemma_decimal_reads_back(n: nat)
    ensures
        decimal(n).len() > 0,
        all_digits(decimal(n)),
        digits_value(decimal(n)) == n,
    decreases n,
{
    let c = digit_char(n % 10);
    assert(c as nat == 48 + n % 10);
    if n < 10 {
        assert(n % 10 == n);
        assert(decimal(n) =~= seq![c]);
        assert(seq![c].drop_last() =~= Seq::<char>::empty());
        assert(seq![c].last() == c);
        assert(digits_value(seq![c]) == digits_value(Seq::<char>::empty()) * 10 + ((c as nat) - 48) as nat);
    } else {
        lemma_decimal_reads_back(n / 10);
        let d = decimal(n / 10);
        assert(decimal(n) == d.push(c));
        assert(d.push(c).drop_last() =~= d);
        assert(d.push(c).last() == c);
        assert(digits_value(d.push(c)) == digits_value(d) * 10 + ((c as nat) - 48) as nat);
        assert(n == (n / 10) * 10 + n % 10) by (nonlinear_arith);
        assert forall|i: int| 0 <= i < d.push(c).len() implies is_digit(#[trigger] d.push(c)[i]) by {
            if i < d.len() {
                assert(d.push(c)[i] == d[i]);
            }
        }
    }
}

/// A page number written in decimal reads as that number.
pub proof fn lemma_number_of_decimal(n: usize)
    ensures
        number_of(decimal(n as nat)) == Some(n),
{
    lemma_decimal_reads_back(n as nat);
}

/// A text that neither starts nor ends with a blank is its own trim.
proof fn lemma_trim_unblanked(s: Seq<char>)
    requires
        s.len() > 0 ==> !is_blank(s[0]) && !is_blank(s.last()),
    ensures
        trim(s) == s,
{
}

/// The items of a specification read as the pages they name, whatever the
/// numbers: `N` is page N alone, `N-` runs from page N to the last page,
/// and `N-M` is pages N through M (so `N-N` is page N alone, not "to the
/// end").
pub proof fn lemma_item_pages(n: usize, m: usize)
    ensures
        item_of(decimal(n as nat)) == Some(PageRange { start: n, end: Some(n) }),
        item_of(decimal(n as nat) + seq!['-']) == Some(PageRange { start: n, end: None }),
        item_of(decimal(n as nat) + seq!['-'] + decimal(m as nat)) == Some(
            PageRange { start: n, end: Some(m) },
        ),
{
    let a = decimal(n as nat);
    let b = decimal(m as nat);
    lemma_decimal_reads_back(n as nat);
    lemma_decimal_reads_back(m as nat);
    lemma_number_of_decimal(n);
    lemma_number_of_decimal(m);
    assert(is_digit(a[0]) && is_digit(a.last()) && is_digit(b[0]) && is_digit(b.last()));
    // `N`
    lemma_trim_unblanked(a);
    assert forall|j: int| 0 <= j < a.len() implies a[j] != '-' by {
        assert(is_digit(a[j]));
    }
    lemma_first_index_of(a, '-', a.len() as int);
    // `N-`
    let s2 = a + seq!['-'];
    assert(s2[0] == a[0] && s2.last() == '-');
    lemma_trim_unblanked(s2);
    assert(s2[a.len() as int] == '-');
    lemma_first_index_of(s2, '-', a.len() as int);
    assert(s2.take(a.len() as int) =~= a);
    assert(s2.skip(a.len() as int + 1) =~= Seq::<char>::empty());
    lemma_trim_unblanked(Seq::<char>::empty());
    // `N-M`
    let s3 = a + seq!['-'] + b;
    assert(s3[0] == a[0] && s3.last() == b.last());
    lemma_trim_unblanked(s3);
    assert(s3[a.len() as int] == '-');
    assert forall|j: int| 0 <= j < a.len() implies s3[j] != '-' by {
        assert(s3[j] == a[j]);
    }
    lemma_first_index_of(s3, '-', a.len() as int);
    assert(s3.take(a.len() as int) =~= a);
    assert(s3.skip(a.len() as int + 1) =~= b);
    lemma_trim_unblanked(b);
}

/// A text without a comma is one piece.
pub proof fn lemma_pieces_no_comma(s: Seq<char>)
    requires
        !s.contains(','),
    ensures
        comma_pieces(s) == seq![s],
    decreases s.len(),
{
    if s.len() > 0 {
        let init = s.drop_last();
        assert(!init.contains(',')) by {
            if init.contains(',') {
                let k = choose|k: int| 0 <= k < init.len() && init[k] == ',';
                assert(s[k] == ',');
            }
        }
        lemma_pieces_no_comma(init);
        assert(s.last() != ',') by {
            assert(s[s.len() - 1] == s.last());
        }
        assert(init.push(s.last()) =~= s);
        assert(seq![init].update(0, init.push(s.last())) =~= seq![s]);
    } else {
        assert(s =~= Seq::<char>::empty());
    }
}

/// Texts joined by a comma have the pieces of the first, then those of the
/// second.
pub proof fn lemma_pieces_join(x: Seq<char>, y: Seq<char>)
    ensures
        comma_pieces(x + seq![','] + y) == comma_pieces(x) + comma_pieces(y),
    decreases y.len(),
{
    let z = x + seq![','] + y;
    if y.len() == 0 {
        assert(z =~= x.push(','));
        assert(z.drop_last() =~= x);
        assert(comma_pieces(x).push(Seq::<char>::empty()) =~= comma_pieces(x) + comma_pieces(y));
    } else {
        let y0 = y.drop_last();
        lemma_pieces_join(x, y0);
        assert(z.drop_last() =~= x + seq![','] + y0);
        assert(z.last() == y.last());
        lemma_pieces_nonempty(y0);
        let px = comma_pieces(x);
        let py0 = comma_pieces(y0);
        if y.last() == ',' {
            assert((px + py0).push(Seq::<char>::empty()) =~= px + py0.push(Seq::<char>::empty()));
        } else {
            let both = px + py0;
            assert(both.update(both.len() - 1, both.last().push(y.last())) =~= px + py0.update(
                py0.len() - 1,
                py0.last().push(y.last()),
            ));
        }
    }
}

/// A specification made of two joined by a comma is well formed when both
/// are, and lists the ranges of the first, then those of the second.
pub proof fn lemma_spec_join(x: Seq<char>, y: Seq<char>)
    ensures
        spec_well_formed(x + seq![','] + y) == (spec_well_formed(x) && spec_well_formed(y)),
        spec_ranges(x + seq![','] + y) == spec_ranges(x) + spec_ranges(y),
{
    let z = x + seq![','] + y;
    lemma_pieces_join(x, y);
    let px = comma_pieces(x);
    let py = comma_pieces(y);
    let pz = comma_pieces(z);
    assert forall|j: int| 0 <= j < py.len() implies pz[px.len() + j] == py[j] by {}
    if spec_well_formed(z) {
        assert forall|j: int| 0 <= j < px.len() implies (#[trigger] item_of(px[j])) is Some by {
            assert(pz[j] == px[j]);
            assert(item_of(pz[j]) is Some);
        }
        assert forall|j: int| 0 <= j < py.len() implies (#[trigger] item_of(py[j])) is Some by {
            assert(pz[px.len() + j] == py[j]);
            assert(item_of(pz[px.len() + j]) is Some);
        }
    }
    if spec_well_formed(x) && spec_well_formed(y) {
        assert forall|j: int| 0 <= j < pz.len() implies (#[trigger] item_of(pz[j])) is Some by {
            if j < px.len() {
                assert(pz[j] == px[j]);
                assert(item_of(px[j]) is Some);
            } else {
                assert(pz[j] == py[j - px.len()]);
                assert(item_of(py[j - px.len()]) is Some);
            }
        }
    }
    assert(spec_ranges(z) =~= spec_ranges(x) + spec_ranges(y)) by {
        assert forall|j: int| 0 <= j < pz.len() implies spec_ranges(z)[j] == (spec_ranges(x)
            + spec_ranges(y))[j] by {
            if j < px.len() {
                assert(pz[j] == px[j]);
            } else {
                assert(pz[j] == py[j - px.len()]);
            }
        }
    }
}

/// A specification of one item (no comma) is well formed when the item
/// is, and lists its range alone.
pub proof fn lemma_spec_single(s: Seq<char>)
    requires
        !s.contains(','),
    ensures
        spec_well_formed(s) == item_of(s) is Some,
        spec_ranges(s) == seq![item_of(s)->0],
{
    lemma_pieces_no_comma(s);
    assert(comma_pieces(s)[0] == s);
    assert(spec_ranges(s) =~= seq![item_of(s)->0]);
}

/// Page index `i` (zero-based) is selected exactly when some range covers
/// page `i + 1`: its start (0 counting as 1) is at most `i + 1`, and
/// `i + 1` is at most its end cut at the last page, or the last page for
/// an open range. The order of the ranges and their overlaps do not matter.
pub proof fn lemma_selected_pages(rs: Seq<PageRange>, total: usize, i: usize)
    ensures
        expanded(rs, total as nat).contains(i) <==> exists|j: int|
            0 <= j < rs.len() && (if (#[trigger] rs[j]).start < 1 {
                1int
            } else {
                rs[j].start as int
            }) <= i + 1 && i + 1 <= (match rs[j].end {
                Some(e) => if e < total {
                    e as int
                } else {
                    total as int
                },
                None => total as int,
            }),
{
    lemma_selected_iff_covered(rs, total, i);
}

/// Each range selects its pages in ascending order, one index per page:
/// pages `a..=b` of a document that has them give the indices
/// `a - 1, a, ..., b - 1`.
pub proof fn lemma_range_indices_in_order(a: usize, b: usize, total: usize)
    requires
        1 <= a <= b <= total,
    ensures
        expanded(seq![PageRange { start: a, end: Some(b) }], total as nat) == Seq::new(
            (b - a + 1) as nat,
            |k: int| (a - 1 + k) as usize,
        ),
        expanded(seq![PageRange { start: a, end: None }], total as nat) == Seq::new(
            (total - a + 1) as nat,
            |k: int| (a - 1 + k) as usize,
        ),
{
    let r1 = seq![PageRange { start: a, end: Some(b) }];
    let r2 = seq![PageRange { start: a, end: None }];
    assert(r1.drop_last() =~= Seq::<PageRange>::empty());
    assert(r2.drop_last() =~= Seq::<PageRange>::empty());
    assert(r1.last() == PageRange { start: a, end: Some(b) });
    assert(r2.last() == PageRange { start: a, end: None });
    assert(expanded(Seq::<PageRange>::empty(), total as nat) == Seq::<usize>::empty());
    assert(expanded(r1, total as nat) == Seq::<usize>::empty() + range_indices(r1.last(), total as nat));
    assert(expanded(r2, total as nat) == Seq::<usize>::empty() + range_indices(r2.last(), total as nat));
    assert(expanded(r1, total as nat) =~= Seq::new((b - a + 1) as nat, |k: int| (a - 1 + k) as usize));
    assert(expanded(r2, total as nat) =~= Seq::new(
        (total - a + 1) as nat,
        |k: int| (a - 1 + k) as usize,
    ));
}

} // verus!
