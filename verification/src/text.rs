//! Character-level helpers: decimal rendering of integers and
//! left-to-right replacement of every occurrence of a pattern.

use vstd::prelude::*;

verus! {

broadcast use vstd::string::group_string_axioms;

/// The character of a decimal digit `d` (`0 <= d < 10`).
pub open spec fn digit_char(d: nat) -> char {
    (48 + d) as char
}

/// Decimal rendering of `n`: no sign, no leading zeros, `0` for zero.
pub open spec fn decimal(n: nat) -> Seq<char>
    decreases n,
{
    if n < 10 {
        seq![digit_char(n)]
    } else {
        decimal(n / 10).push(digit_char(n % 10))
    }
}

/// What `str::replace` computes: every non-overlapping occurrence of `pat`,
/// found from left to right, is replaced by `rep`. An empty pattern occurs
/// before every character and at the end.
pub open spec fn replace_all(s: Seq<char>, pat: Seq<char>, rep: Seq<char>) -> Seq<char>
    decreases s.len(),
{
    if pat.len() == 0 {
        if s.len() == 0 {
            rep
        } else {
            rep + seq![s[0]] + replace_all(s.skip(1), pat, rep)
        }
    } else if s.len() < pat.len() {
        s
    } else if s.take(pat.len() as int) == pat {
        rep + replace_all(s.skip(pat.len() as int), pat, rep)
    } else {
        seq![s[0]] + replace_all(s.skip(1), pat, rep)
    }
}

fn digit_str(d: usize) -> (r: &'static str)
    requires
        d < 10,
    ensures
        r@ == seq![digit_char(d as nat)],
{
    proof {
        reveal_strlit("0");
        reveal_strlit("1");
        reveal_strlit("2");
        reveal_strlit("3");
        reveal_strlit("4");
        reveal_strlit("5");
        reveal_strlit("6");
        reveal_strlit("7");
        reveal_strlit("8");
        reveal_strlit("9");
    }
    match d {
        0 => "0",
        1 => "1",
        2 => "2",
        3 => "3",
        4 => "4",
        5 => "5",
        6 => "6",
        7 => "7",
        8 => "8",
        _ => "9",
    }
}

/// Renders `n` in decimal, as `usize::to_string` does.
pub fn to_decimal(n: usize) -> (r: String)
    ensures
        r@ == decimal(n as nat),
    decreases n,
{
    if n < 10 {
        String::from_str(digit_str(n))
    } else {
        let mut s = to_decimal(n / 10);
        s.append(digit_str(n % 10));
        s
    }
}


/// The characters of `s`, in order.
pub fn chars_of(s: &str) -> (v: Vec<char>)
    ensures
        v@ == s@,
{
    let mut v: Vec<char> = Vec::new();
    for c in it: s.chars()
        invariant
            it.seq() == s@,
            v@ == it.seq().take(it.index() as int),
    {
        v.push(c);
    }
    v
}


/// Whether `pat` occurs in `s` at position `i`.
fn occurs_at(s: &Vec<char>, pat: &Vec<char>, i: usize) -> (r: bool)
    requires
        i + pat@.len() <= s@.len(),
    ensures
        r == (s@.subrange(i as int, i + pat@.len()) == pat@),
{
    let sl = s.len();
    let mut k: usize = 0;
    while k < pat.len()
        invariant
            sl == s@.len(),
            k <= pat@.len(),
            i + pat@.len() <= s@.len(),
            forall|j: int| 0 <= j < k ==> s@[i + j] == pat@[j],
        decreases pat@.len() - k,
    {
        assert(i + k < sl);
        if s[i + k] != pat[k] {
            assert(s@.subrange(i as int, i + pat@.len())[k as int] != pat@[k as int]);
            return false;
        }
        k = k + 1;
    }
    assert(s@.subrange(i as int, i + pat@.len()) =~= pat@);
    true
}

proof fn lemma_replace_step_match(s: Seq<char>, i: int, pat: Seq<char>, rep: Seq<char>)
    requires
        pat.len() > 0,
        0 <= i,
        i + pat.len() <= s.len(),
        s.subrange(i, i + pat.len()) == pat,
    ensures
        replace_all(s.skip(i), pat, rep) == rep + replace_all(s.skip(i + pat.len()), pat, rep),
{
    assert(s.skip(i).take(pat.len() as int) =~= s.subrange(i, i + pat.len()));
    assert(s.skip(i).skip(pat.len() as int) =~= s.skip(i + pat.len()));
}

proof fn lemma_replace_step_miss(s: Seq<char>, i: int, pat: Seq<char>, rep: Seq<char>)
    requires
        pat.len() > 0,
        0 <= i,
        i + pat.len() <= s.len(),
        s.subrange(i, i + pat.len()) != pat,
    ensures
        replace_all(s.skip(i), pat, rep) == seq![s[i]] + replace_all(s.skip(i + 1), pat, rep),
{
    assert(s.skip(i).take(pat.len() as int) =~= s.subrange(i, i + pat.len()));
    assert(s.skip(i).skip(1) =~= s.skip(i + 1));
}

/// `rep` before every character of `s` and after the last: what replacing
/// the empty pattern gives.
fn interleave(s: &str, n: usize, pat: &str, rep: &str) -> (r: String)
    requires
        n == s@.len(),
        pat@.len() == 0,
    ensures
        r@ == replace_all(s@, pat@, rep@),
{
    let mut res = String::new();
    let mut i: usize = 0;
    assert(s@.skip(0) =~= s@);
    while i < n
        invariant
            n == s@.len(),
            pat@.len() == 0,
            i <= n,
            replace_all(s@, pat@, rep@) == res@ + replace_all(s@.skip(i as int), pat@, rep@),
        decreases n - i,
    {
        let piece = s.substring_char(i, i + 1);
        proof {
            let t = s@.skip(i as int);
            assert(t.skip(1) =~= s@.skip(i + 1));
            assert(piece@ =~= seq![t[0]]);
        }
        let ghost before = res@;
        res.append(rep);
        res.append(piece);
        assert(res@ =~= before + rep@ + piece@);
        i = i + 1;
    }
    assert(s@.skip(i as int) =~= Seq::<char>::empty());
    res.append(rep);
    res
}

/// Replaces every occurrence of `pat` in `s` by `rep`, as `str::replace` does.
pub fn replace_all_occurrences(s: &str, pat: &str, rep: &str) -> (r: String)
    ensures
        r@ == replace_all(s@, pat@, rep@),
{
    let cs = chars_of(s);
    let ps = chars_of(pat);
    let n = cs.len();
    let m = ps.len();
    if m == 0 {
        return interleave(s, n, pat, rep);
    }
    let mut res = String::new();
    let mut seg: usize = 0;
    let mut i: usize = 0;
    assert(s@.skip(0) =~= s@);
    while m <= n - i
        invariant
            cs@ == s@,
            ps@ == pat@,
            n == s@.len(),
            m == pat@.len(),
            m > 0,
            seg <= i,
            i <= n,
            replace_all(s@, pat@, rep@) == res@ + s@.subrange(seg as int, i as int) + replace_all(
                s@.skip(i as int),
                pat@,
                rep@,
            ),
        decreases n - i,
    {
        if occurs_at(&cs, &ps, i) {
            proof {
                lemma_replace_step_match(s@, i as int, pat@, rep@);
            }
            let piece = s.substring_char(seg, i);
            let ghost before = res@;
            res.append(piece);
            res.append(rep);
            assert(res@ == before + s@.subrange(seg as int, i as int) + rep@);
            i = i + m;
            seg = i;
            assert(s@.subrange(seg as int, i as int) =~= Seq::<char>::empty());
        } else {
            proof {
                lemma_replace_step_miss(s@, i as int, pat@, rep@);
                assert(s@.subrange(seg as int, i + 1) =~= s@.subrange(seg as int, i as int).push(
                    s@[i as int],
                ));
            }
            i = i + 1;
        }
    }
    assert(replace_all(s@.skip(i as int), pat@, rep@) == s@.skip(i as int));
    let tail = s.substring_char(seg, n);
    assert(s@.subrange(seg as int, n as int) =~= s@.subrange(seg as int, i as int) + s@.skip(
        i as int,
    ));
    res.append(tail);
    res
}


/// Whether `pat` occurs somewhere in `s`.
pub open spec fn occurs_in(s: Seq<char>, pat: Seq<char>) -> bool {
    exists|i: int| 0 <= i && i + pat.len() <= s.len() && #[trigger] s.subrange(i, i + pat.len()) == pat
}

/// A text in which the pattern does not occur is left as it is.
pub proof fn lemma_replace_absent(s: Seq<char>, pat: Seq<char>, rep: Seq<char>)
    requires
        pat.len() > 0,
        !occurs_in(s, pat),
    ensures
        replace_all(s, pat, rep) == s,
    decreases s.len(),
{
    if s.len() >= pat.len() {
        assert(s.take(pat.len() as int) =~= s.subrange(0, pat.len() as int));
        assert(s.subrange(0int, 0int + pat.len()) != pat);
        assert(s.take(pat.len() as int) != pat);
        let t = s.skip(1);
        assert forall|i: int| 0 <= i && i + pat.len() <= t.len() implies #[trigger] t.subrange(
            i,
            i + pat.len(),
        ) != pat by {
            assert(t.subrange(i, i + pat.len()) =~= s.subrange(i + 1, i + 1 + pat.len()));
        }
        lemma_replace_absent(t, pat, rep);
        assert(s =~= seq![s[0]] + t);
    }
}

/// A text without the first character of `pat` holds no occurrence of it.
pub proof fn lemma_no_first_char(s: Seq<char>, pat: Seq<char>)
    requires
        pat.len() > 0,
        !s.contains(pat[0]),
    ensures
        !occurs_in(s, pat),
{
    assert forall|i: int| 0 <= i && i + pat.len() <= s.len() implies #[trigger] s.subrange(
        i,
        i + pat.len(),
    ) != pat by {
        assert(s.subrange(i, i + pat.len())[0] == s[i]);
    }
}

/// A text in which the first character of `pat` is never followed by its
/// second holds no occurrence of it.
pub proof fn lemma_no_first_pair(s: Seq<char>, pat: Seq<char>)
    requires
        pat.len() >= 2,
        forall|i: int| 0 <= i < s.len() - 1 && #[trigger] s[i] == pat[0] ==> s[i + 1] != pat[1],
    ensures
        !occurs_in(s, pat),
{
    assert forall|i: int| 0 <= i && i + pat.len() <= s.len() implies #[trigger] s.subrange(
        i,
        i + pat.len(),
    ) != pat by {
        assert(s.subrange(i, i + pat.len())[0] == s[i]);
        assert(s.subrange(i, i + pat.len())[1] == s[i + 1]);
    }
}

/// Text before the first character of `pat` is copied as it is.
pub proof fn lemma_replace_copies_prefix(x: Seq<char>, z: Seq<char>, pat: Seq<char>, rep: Seq<char>)
    requires
        pat.len() > 0,
        !x.contains(pat[0]),
    ensures
        replace_all(x + z, pat, rep) == x + replace_all(z, pat, rep),
    decreases x.len(),
{
    let s = x + z;
    if x.len() == 0 {
        assert(s =~= z);
    } else if s.len() < pat.len() {
        assert(z.len() < pat.len());
    } else {
        assert(s.take(pat.len() as int)[0] == x[0]);
        assert(s.take(pat.len() as int) != pat);
        let x1 = x.skip(1);
        assert(!x1.contains(pat[0])) by {
            if x1.contains(pat[0]) {
                let k = choose|k: int| 0 <= k < x1.len() && x1[k] == pat[0];
                assert(x[k + 1] == pat[0]);
            }
        }
        lemma_replace_copies_prefix(x1, z, pat, rep);
        assert(s.skip(1) =~= x1 + z);
        assert(x =~= seq![x[0]] + x1);
    }
}

/// One occurrence of `pat` between texts without its first character is
/// replaced by `rep`, and nothing else changes.
pub proof fn lemma_replace_one(x: Seq<char>, y: Seq<char>, pat: Seq<char>, rep: Seq<char>)
    requires
        pat.len() > 0,
        !x.contains(pat[0]),
        !y.contains(pat[0]),
    ensures
        replace_all(x + pat + y, pat, rep) == x + rep + y,
{
    assert(x + pat + y =~= x + (pat + y));
    lemma_replace_copies_prefix(x, pat + y, pat, rep);
    assert((pat + y).take(pat.len() as int) =~= pat);
    assert((pat + y).skip(pat.len() as int) =~= y);
    lemma_no_first_char(y, pat);
    lemma_replace_absent(y, pat, rep);
    assert(x + (rep + y) =~= x + rep + y);
}

/// The decimal rendering has no leading zero: zero is `0`, and any other
/// number starts with a digit other than `0`; a number below ten is one
/// digit, and a larger one is the rendering of its tenth followed by its
/// last digit.
pub proof fn lemma_decimal_canonical(n: nat)
    ensures
        decimal(n).len() > 0,
        n == 0 ==> decimal(n) == seq!['0'],
        n > 0 ==> decimal(n)[0] != '0',
        n < 10 ==> decimal(n).len() == 1,
        n >= 10 ==> decimal(n) == decimal(n / 10) + seq![(48 + n % 10) as char],
    decreases n,
{
    if n >= 10 {
        lemma_decimal_canonical(n / 10);
        assert(decimal(n / 10).push(digit_char(n % 10)) =~= decimal(n / 10) + seq![(48 + n % 10) as char]);
        assert(decimal(n)[0] == decimal(n / 10)[0]);
    } else {
        assert(digit_char(n) as nat == 48 + n);
    }
}

} // verus!
