//! File-system paths as sequences of components, with the ordering and
//! equality that `std::path::Path` gives them, the `.pdf` extension test,
//! prefix stripping, and sorting.

use vstd::prelude::*;

verus! {

/// One component of a path, as `std::path::Component` names them (a
/// Windows prefix does not occur on the systems this library targets).
#[derive(Debug)]
pub enum PathPart {
    RootDir,
    CurDir,
    ParentDir,
    Normal(Vec<u8>),
}

/// The mathematical value of a component.
pub enum PartView {
    RootDir,
    CurDir,
    ParentDir,
    Normal(Seq<u8>),
}

impl View for PathPart {
    type V = PartView;

    open spec fn view(&self) -> PartView {
        match self {
            PathPart::RootDir => PartView::RootDir,
            PathPart::CurDir => PartView::CurDir,
            PathPart::ParentDir => PartView::ParentDir,
            PathPart::Normal(b) => PartView::Normal(b@),
        }
    }
}

/// A path, given by its components.
#[derive(Debug)]
pub struct FsPath {
    pub parts: Vec<PathPart>,
}

impl View for FsPath {
    type V = Seq<PartView>;

    open spec fn view(&self) -> Seq<PartView> {
        self.parts@.map_values(|p: PathPart| p@)
    }
}

/// The values of a list of paths.
pub open spec fn paths_view(v: Seq<FsPath>) -> Seq<Seq<PartView>> {
    v.map_values(|p: FsPath| p@)
}

/// Three-way comparison of byte strings, lexicographic (`-1`, `0` or `1`).
pub open spec fn bytes_order(a: Seq<u8>, b: Seq<u8>) -> int
    decreases a.len(),
{
    if a.len() == 0 {
        if b.len() == 0 {
            0
        } else {
            -1
        }
    } else if b.len() == 0 {
        1
    } else if a[0] < b[0] {
        -1
    } else if a[0] > b[0] {
        1
    } else {
        bytes_order(a.skip(1), b.skip(1))
    }
}

/// Rank of a component kind in the order of `std::path::Component`.
pub open spec fn part_rank(p: PartView) -> int {
    match p {
        PartView::RootDir => 1,
        PartView::CurDir => 2,
        PartView::ParentDir => 3,
        PartView::Normal(_) => 4,
    }
}

/// Three-way comparison of components: by kind, then by name.
pub open spec fn part_order(a: PartView, b: PartView) -> int {
    if part_rank(a) < part_rank(b) {
        -1
    } else if part_rank(a) > part_rank(b) {
        1
    } else {
        match (a, b) {
            (PartView::Normal(x), PartView::Normal(y)) => bytes_order(x, y),
            _ => 0,
        }
    }
}

/// Three-way comparison of paths: lexicographic over their components, as
/// `Ord for Path` orders them.
pub open spec fn path_order(a: Seq<PartView>, b: Seq<PartView>) -> int
    decreases a.len(),
{
    if a.len() == 0 {
        if b.len() == 0 {
            0
        } else {
            -1
        }
    } else if b.len() == 0 {
        1
    } else if part_order(a[0], b[0]) != 0 {
        part_order(a[0], b[0])
    } else {
        path_order(a.skip(1), b.skip(1))
    }
}

/// Ascending order of paths.
pub open spec fn path_le(a: Seq<PartView>, b: Seq<PartView>) -> bool {
    path_order(a, b) <= 0
}

/// A list of paths in ascending order.
pub open spec fn sorted_paths(s: Seq<Seq<PartView>>) -> bool {
    forall|i: int, j: int| 0 <= i < j < s.len() ==> path_le(#[trigger] s[i], #[trigger] s[j])
}


/// Byte-string comparison is antisymmetric and tells equal strings apart.
pub proof fn lemma_bytes_order_basics(a: Seq<u8>, b: Seq<u8>)
    ensures
        -1 <= bytes_order(a, b) <= 1,
        bytes_order(a, b) == -bytes_order(b, a),
        bytes_order(a, b) == 0 <==> a == b,
    decreases a.len(),
{
    if a.len() > 0 && b.len() > 0 {
        lemma_bytes_order_basics(a.skip(1), b.skip(1));
        if a[0] == b[0] && a.skip(1) == b.skip(1) {
            assert(a =~= seq![a[0]] + a.skip(1));
            assert(b =~= seq![b[0]] + b.skip(1));
        }
    } else if a.len() == 0 && b.len() == 0 {
        assert(a =~= b);
    }
}

/// Byte-string comparison is transitive.
pub proof fn lemma_bytes_order_trans(a: Seq<u8>, b: Seq<u8>, c: Seq<u8>)
    requires
        bytes_order(a, b) <= 0,
        bytes_order(b, c) <= 0,
    ensures
        bytes_order(a, c) <= 0,
    decreases a.len(),
{
    if a.len() > 0 && b.len() > 0 && c.len() > 0 {
        if a[0] == b[0] && b[0] == c[0] {
            lemma_bytes_order_trans(a.skip(1), b.skip(1), c.skip(1));
        }
    }
}

/// Component comparison is antisymmetric and tells equal components apart.
pub proof fn lemma_part_order_basics(a: PartView, b: PartView)
    ensures
        -1 <= part_order(a, b) <= 1,
        part_order(a, b) == -part_order(b, a),
        part_order(a, b) == 0 <==> a == b,
{
    match (a, b) {
        (PartView::Normal(x), PartView::Normal(y)) => {
            lemma_bytes_order_basics(x, y);
        },
        _ => {},
    }
}

/// Component comparison is transitive.
pub proof fn lemma_part_order_trans(a: PartView, b: PartView, c: PartView)
    requires
        part_order(a, b) <= 0,
        part_order(b, c) <= 0,
    ensures
        part_order(a, c) <= 0,
{
    match (a, b, c) {
        (PartView::Normal(x), PartView::Normal(y), PartView::Normal(z)) => {
            lemma_bytes_order_trans(x, y, z);
        },
        _ => {},
    }
}

/// Path comparison is antisymmetric and tells equal paths apart, so
/// `path_le` is a total order.
pub proof fn lemma_path_order_basics(a: Seq<PartView>, b: Seq<PartView>)
    ensures
        -1 <= path_order(a, b) <= 1,
        path_order(a, b) == -path_order(b, a),
        path_order(a, b) == 0 <==> a == b,
    decreases a.len(),
{
    if a.len() > 0 && b.len() > 0 {
        lemma_part_order_basics(a[0], b[0]);
        lemma_path_order_basics(a.skip(1), b.skip(1));
        if a[0] == b[0] && a.skip(1) == b.skip(1) {
            assert(a =~= seq![a[0]] + a.skip(1));
            assert(b =~= seq![b[0]] + b.skip(1));
        }
    } else if a.len() == 0 && b.len() == 0 {
        assert(a =~= b);
    }
}

/// Path comparison is transitive.
pub proof fn lemma_path_order_trans(a: Seq<PartView>, b: Seq<PartView>, c: Seq<PartView>)
    requires
        path_order(a, b) <= 0,
        path_order(b, c) <= 0,
    ensures
        path_order(a, c) <= 0,
    decreases a.len(),
{
    if a.len() > 0 && b.len() > 0 && c.len() > 0 {
        lemma_part_order_basics(a[0], b[0]);
        lemma_part_order_basics(b[0], c[0]);
        lemma_part_order_basics(a[0], c[0]);
        if part_order(a[0], b[0]) == 0 && part_order(b[0], c[0]) == 0 {
            lemma_path_order_trans(a.skip(1), b.skip(1), c.skip(1));
        } else {
            lemma_part_order_trans(a[0], b[0], c[0]);
            if part_order(a[0], c[0]) == 0 {
                // a[0] == c[0], so a[0] <= b[0] <= a[0] forces both to be equal
                lemma_part_order_basics(b[0], a[0]);
            }
        }
    }
}

/// Two ascending lists of the same paths, counted with repetition, are the
/// same list: sorting has a single result.
pub proof fn lemma_sorted_unique(a: Seq<Seq<PartView>>, b: Seq<Seq<PartView>>)
    requires
        sorted_paths(a),
        sorted_paths(b),
        a.to_multiset() == b.to_multiset(),
    ensures
        a == b,
    decreases a.len(),
{
    broadcast use vstd::seq_lib::group_to_multiset_ensures;
    broadcast use vstd::multiset::group_multiset_axioms;

    if a.len() == 0 {
        assert(b.to_multiset().len() == 0);
        assert(a =~= b);
    } else {
        let x = a.last();
        assert(a.contains(x)) by {
            assert(a[a.len() - 1] == x);
        }
        assert(b.len() > 0) by {
            assert(b.to_multiset().count(x) > 0);
        }
        let y = b.last();
        assert(b.contains(y)) by {
            assert(b[b.len() - 1] == y);
        }
        assert(b.contains(x)) by {
            assert(b.to_multiset().count(x) > 0);
        }
        assert(a.contains(y)) by {
            assert(a.to_multiset().count(y) > 0);
        }
        let kb = choose|k: int| 0 <= k < b.len() && b[k] == x;
        let ka = choose|k: int| 0 <= k < a.len() && a[k] == y;
        if kb < b.len() - 1 {
            assert(path_le(b[kb], b[b.len() - 1]));
        } else {
            lemma_path_order_basics(x, y);
        }
        if ka < a.len() - 1 {
            assert(path_le(a[ka], a[a.len() - 1]));
        } else {
            lemma_path_order_basics(y, x);
        }
        lemma_path_order_basics(x, y);
        assert(x == y);
        let a0 = a.drop_last();
        let b0 = b.drop_last();
        assert(a =~= a0.push(x));
        assert(b =~= b0.push(x));
        assert(a0.to_multiset() =~= b0.to_multiset()) by {
            assert forall|z| a0.to_multiset().count(z) == b0.to_multiset().count(z) by {
                assert(a0.push(x).to_multiset().count(z) == b0.push(x).to_multiset().count(z));
            }
        }
        assert(sorted_paths(a0)) by {
            assert forall|i: int, j: int| 0 <= i < j < a0.len() implies path_le(
                #[trigger] a0[i],
                #[trigger] a0[j],
            ) by {
                assert(a0[i] == a[i] && a0[j] == a[j]);
            }
        }
        assert(sorted_paths(b0)) by {
            assert forall|i: int, j: int| 0 <= i < j < b0.len() implies path_le(
                #[trigger] b0[i],
                #[trigger] b0[j],
            ) by {
                assert(b0[i] == b[i] && b0[j] == b[j]);
            }
        }
        lemma_sorted_unique(a0, b0);
    }
}

/// A list of paths in strictly ascending order: sorted, each path once.
pub open spec fn strictly_sorted_paths(s: Seq<Seq<PartView>>) -> bool {
    forall|i: int, j: int| 0 <= i < j < s.len() ==> path_order(#[trigger] s[i], #[trigger] s[j]) < 0
}

/// `f` places each path of `a` at a position of `b` that holds it, keeping
/// their order.
pub open spec fn embeds(a: Seq<Seq<PartView>>, b: Seq<Seq<PartView>>, f: spec_fn(int) -> int) -> bool {
    &&& forall|k: int| 0 <= k < a.len() ==> 0 <= #[trigger] f(k) < b.len() && b[f(k)] == a[k]
    &&& forall|k1: int, k2: int| 0 <= k1 < k2 < a.len() ==> #[trigger] f(k1) < #[trigger] f(k2)
}

/// `a` is a subsequence of `b`: the paths of `a` occur in `b`, in the same
/// order.
pub open spec fn is_subsequence_of(a: Seq<Seq<PartView>>, b: Seq<Seq<PartView>>) -> bool {
    exists|f: spec_fn(int) -> int| #[trigger] embeds(a, b, f)
}

/// A path that sits at two positions of a list is counted twice.
pub proof fn lemma_count_two<A>(s: Seq<A>, i: int, j: int)
    requires
        0 <= i < j < s.len(),
        s[i] == s[j],
    ensures
        s.to_multiset().count(s[i]) >= 2,
    decreases s.len(),
{
    broadcast use vstd::seq_lib::group_to_multiset_ensures;
    broadcast use vstd::multiset::group_multiset_axioms;

    let init = s.drop_last();
    assert(s =~= init.push(s.last()));
    if j == s.len() - 1 {
        assert(init[i] == s[i]);
        assert(init.contains(s[i]));
        assert(init.to_multiset().count(s[i]) >= 1);
    } else {
        assert(init[i] == s[i] && init[j] == s[j]);
        lemma_count_two(init, i, j);
    }
}

/// A sorted list in which no path is counted twice is strictly ascending.
pub proof fn lemma_sorted_once_is_strict(s: Seq<Seq<PartView>>)
    requires
        sorted_paths(s),
        forall|x: Seq<PartView>| #[trigger] s.to_multiset().count(x) <= 1,
    ensures
        strictly_sorted_paths(s),
{
    assert forall|i: int, j: int| 0 <= i < j < s.len() implies path_order(
        #[trigger] s[i],
        #[trigger] s[j],
    ) < 0 by {
        assert(path_le(s[i], s[j]));
        lemma_path_order_basics(s[i], s[j]);
        if s[i] == s[j] {
            lemma_count_two(s, i, j);
        }
    }
}

/// Of two strictly ascending lists, one whose paths all occur in the other
/// is a subsequence of it.
pub proof fn lemma_contained_is_subsequence(a: Seq<Seq<PartView>>, b: Seq<Seq<PartView>>)
    requires
        strictly_sorted_paths(a),
        strictly_sorted_paths(b),
        a.to_multiset().subset_of(b.to_multiset()),
    ensures
        is_subsequence_of(a, b),
{
    broadcast use vstd::seq_lib::group_to_multiset_ensures;

    assert forall|k: int| 0 <= k < a.len() implies b.contains(a[k]) by {
        assert(a.contains(a[k]));
        assert(a.to_multiset().count(a[k]) <= b.to_multiset().count(a[k]));
    }
    let f = |k: int| choose|m: int| 0 <= m < b.len() && b[m] == a[k];
    assert forall|k: int| 0 <= k < a.len() implies 0 <= #[trigger] f(k) < b.len() && b[f(k)] == a[k] by {
        assert(b.contains(a[k]));
    }
    assert forall|k1: int, k2: int| 0 <= k1 < k2 < a.len() implies #[trigger] f(k1) < #[trigger] f(k2) by {
        assert(b.contains(a[k1]) && b.contains(a[k2]));
        let m1 = f(k1);
        let m2 = f(k2);
        assert(path_order(a[k1], a[k2]) < 0);
        lemma_path_order_basics(a[k1], a[k2]);
        if m1 > m2 {
            assert(path_order(b[m2], b[m1]) < 0);
        }
    }
    assert(embeds(a, b, f));
}

/// Byte strings are ordered by their first differing byte, smaller byte
/// first, as the byte order of `u8` has it.
pub proof fn lemma_bytes_order_first_difference(a: Seq<u8>, b: Seq<u8>, k: int)
    requires
        0 <= k < a.len(),
        k < b.len(),
        a.take(k) == b.take(k),
        a[k] != b[k],
    ensures
        bytes_order(a, b) == (if a[k] < b[k] {
            -1int
        } else {
            1int
        }),
    decreases k,
{
    if k > 0 {
        assert(a[0] == a.take(k)[0] && b[0] == b.take(k)[0]);
        assert(a.skip(1).take(k - 1) =~= a.take(k).skip(1));
        assert(b.skip(1).take(k - 1) =~= b.take(k).skip(1));
        lemma_bytes_order_first_difference(a.skip(1), b.skip(1), k - 1);
    }
}

/// A byte string comes before every longer string that begins with it.
pub proof fn lemma_bytes_order_prefix(a: Seq<u8>, b: Seq<u8>)
    requires
        a.len() < b.len(),
        b.take(a.len() as int) == a,
    ensures
        bytes_order(a, b) == -1,
    decreases a.len(),
{
    if a.len() > 0 {
        assert(a[0] == b.take(a.len() as int)[0]);
        assert(b.skip(1).take(a.len() - 1) =~= a.skip(1));
        lemma_bytes_order_prefix(a.skip(1), b.skip(1));
    }
}

/// Components are ordered as `std::path::Component` orders them: the root
/// before `.`, `.` before `..`, `..` before any name, and names by their
/// bytes.
pub proof fn lemma_part_order_kinds(x: Seq<u8>, y: Seq<u8>)
    ensures
        part_order(PartView::RootDir, PartView::CurDir) == -1,
        part_order(PartView::CurDir, PartView::ParentDir) == -1,
        part_order(PartView::ParentDir, PartView::Normal(x)) == -1,
        part_order(PartView::RootDir, PartView::Normal(x)) == -1,
        part_order(PartView::Normal(x), PartView::Normal(y)) == bytes_order(x, y),
        part_order(PartView::RootDir, PartView::RootDir) == 0,
        part_order(PartView::CurDir, PartView::CurDir) == 0,
        part_order(PartView::ParentDir, PartView::ParentDir) == 0,
{
}

/// Paths are ordered by their first differing component; a path comes
/// before every longer path that begins with it.
pub proof fn lemma_path_order_first_difference(a: Seq<PartView>, b: Seq<PartView>, k: int)
    requires
        0 <= k <= a.len(),
        k <= b.len(),
        a.take(k) == b.take(k),
        k < a.len() && k < b.len() ==> a[k] != b[k],
        a.len() != b.len() || k < a.len(),
    ensures
        k < a.len() && k < b.len() ==> path_order(a, b) == part_order(a[k], b[k]) && part_order(
            a[k],
            b[k],
        ) != 0,
        k == a.len() ==> path_order(a, b) == -1,
        k == b.len() ==> path_order(a, b) == 1,
    decreases k,
{
    if k > 0 {
        assert(a[0] == a.take(k)[0] && b[0] == b.take(k)[0]);
        lemma_part_order_basics(a[0], b[0]);
        assert(a.skip(1).take(k - 1) =~= a.take(k).skip(1));
        assert(b.skip(1).take(k - 1) =~= b.take(k).skip(1));
        lemma_path_order_first_difference(a.skip(1), b.skip(1), k - 1);
        if k < a.len() && k < b.len() {
            assert(a.skip(1)[k - 1] == a[k] && b.skip(1)[k - 1] == b[k]);
        }
    } else if k < a.len() && k < b.len() {
        lemma_part_order_basics(a[0], b[0]);
    }
}

/// The last component of a path decides whether it is a PDF file: a name
/// `stem.ext`, whose stem is not empty and whose `ext` holds no dot, is
/// one exactly when `ext` is `pdf` in some ASCII case, whatever the stem
/// and the directories before it.
pub proof fn lemma_pdf_name(dirs: Seq<PartView>, stem: Seq<u8>, ext: Seq<u8>)
    requires
        stem.len() > 0,
        forall|i: int| 0 <= i < ext.len() ==> ext[i] != 46u8,
    ensures
        has_pdf_extension(dirs.push(PartView::Normal(stem + seq![46u8] + ext))) == (ext.len() == 3
            && (ext[0] == 112u8 || ext[0] == 80u8) && (ext[1] == 100u8 || ext[1] == 68u8) && (ext[2]
            == 102u8 || ext[2] == 70u8)),
{
    let name = stem + seq![46u8] + ext;
    let d = stem.len() as int;
    assert(name[d] == 46u8);
    assert forall|j: int| d < j < name.len() implies name[j] != 46u8 by {
        assert(name[j] == ext[j - d - 1]);
    }
    lemma_last_index_of(name, 46u8, d);
    assert(name.skip(d + 1) =~= ext);
    assert(dirs.push(PartView::Normal(name)).last() == PartView::Normal(name));
}

/// A name with no dot after its first byte (such as `pdf` or `.pdf`) has
/// no extension, so it names no PDF file; nor does a path that ends in the
/// root, `.` or `..`, or the empty path.
pub proof fn lemma_not_pdf_name(dirs: Seq<PartView>, name: Seq<u8>, last: PartView)
    requires
        forall|i: int| 1 <= i < name.len() ==> name[i] != 46u8,
        !(last is Normal),
    ensures
        !has_pdf_extension(dirs.push(PartView::Normal(name))),
        !has_pdf_extension(dirs.push(last)),
        !has_pdf_extension(Seq::<PartView>::empty()),
{
    assert(dirs.push(PartView::Normal(name)).last() == PartView::Normal(name));
    assert(dirs.push(last).last() == last);
    if name.len() > 0 && name[0] == 46u8 {
        lemma_last_index_of(name, 46u8, 0);
    } else {
        lemma_last_index_of_none(name, 46u8);
    }
}

/// A path under `base` is taken relative to it by dropping the components
/// of `base`, however many there are.
pub proof fn lemma_relative_under(base: Seq<PartView>, q: Seq<PartView>)
    ensures
        relative_to(base + q, base) == q,
{
    assert((base + q).take(base.len() as int) =~= base);
    assert((base + q).skip(base.len() as int) =~= q);
}

/// A path that does not begin with the components of `base` is left as it
/// is.
pub proof fn lemma_relative_outside(p: Seq<PartView>, base: Seq<PartView>, k: int)
    requires
        0 <= k < base.len(),
        k >= p.len() || p[k] != base[k],
    ensures
        relative_to(p, base) == p,
{
    if base.len() <= p.len() && p.take(base.len() as int) == base {
        assert(p.take(base.len() as int)[k] == p[k]);
    }
}

/// The bytes of a path are its components joined by `/`: a name alone is
/// its own bytes, a name after the root follows the `/` of the root, and a
/// name after any other component follows a `/`.
pub proof fn lemma_path_bytes_join(q: Seq<PartView>, x: Seq<u8>)
    ensures
        path_bytes(seq![PartView::Normal(x)]) == x,
        path_bytes(seq![PartView::RootDir, PartView::Normal(x)]) == seq![47u8] + x,
        q.len() > 0 && !(q.last() is RootDir) ==> path_bytes(q.push(PartView::Normal(x))) == path_bytes(
            q,
        ) + seq![47u8] + x,
{
    let r = seq![PartView::RootDir, PartView::Normal(x)];
    assert(r.drop_last() =~= seq![PartView::RootDir]);
    assert(path_bytes(seq![PartView::RootDir]) == seq![47u8]);
    assert(r[r.len() - 2] is RootDir);
    assert(r.last() == PartView::Normal(x));
    assert(path_bytes(r) == path_bytes(r.drop_last()) + Seq::<u8>::empty() + x);
    assert(path_bytes(r) =~= seq![47u8] + x);
    if q.len() > 0 {
        let p = q.push(PartView::Normal(x));
        assert(p.drop_last() =~= q);
        assert(p[p.len() - 2] == q.last());
    }
}

/// Compares two byte strings lexicographically.
pub fn compare_bytes(a: &Vec<u8>, b: &Vec<u8>) -> (r: i8)
    ensures
        r as int == bytes_order(a@, b@),
{
    let mut i: usize = 0;
    assert(a@.skip(0) =~= a@);
    assert(b@.skip(0) =~= b@);
    while i < a.len() && i < b.len()
        invariant
            i <= a@.len(),
            i <= b@.len(),
            bytes_order(a@, b@) == bytes_order(a@.skip(i as int), b@.skip(i as int)),
        decreases a@.len() - i,
    {
        if a[i] < b[i] {
            return -1;
        }
        if a[i] > b[i] {
            return 1;
        }
        assert(a@.skip(i as int).skip(1) =~= a@.skip(i + 1));
        assert(b@.skip(i as int).skip(1) =~= b@.skip(i + 1));
        i = i + 1;
    }
    if i < a.len() {
        1
    } else if i < b.len() {
        -1
    } else {
        0
    }
}

fn part_rank_of(p: &PathPart) -> (r: u8)
    ensures
        r as int == part_rank(p@),
{
    match p {
        PathPart::RootDir => 1,
        PathPart::CurDir => 2,
        PathPart::ParentDir => 3,
        PathPart::Normal(_) => 4,
    }
}

/// Compares two components as `std::path::Component` orders them.
pub fn compare_parts(a: &PathPart, b: &PathPart) -> (r: i8)
    ensures
        r as int == part_order(a@, b@),
{
    let ra = part_rank_of(a);
    let rb = part_rank_of(b);
    if ra < rb {
        -1
    } else if ra > rb {
        1
    } else {
        match (a, b) {
            (PathPart::Normal(x), PathPart::Normal(y)) => compare_bytes(x, y),
            _ => 0,
        }
    }
}

/// Compares two paths as `Ord for Path` orders them.
pub fn compare_paths(a: &FsPath, b: &FsPath) -> (r: i8)
    ensures
        r as int == path_order(a@, b@),
{
    let mut i: usize = 0;
    assert(a@.skip(0) =~= a@);
    assert(b@.skip(0) =~= b@);
    while i < a.parts.len() && i < b.parts.len()
        invariant
            i <= a@.len(),
            i <= b@.len(),
            a@.len() == a.parts@.len(),
            b@.len() == b.parts@.len(),
            path_order(a@, b@) == path_order(a@.skip(i as int), b@.skip(i as int)),
        decreases a@.len() - i,
    {
        let c = compare_parts(&a.parts[i], &b.parts[i]);
        assert(a@.skip(i as int)[0] == a.parts@[i as int]@);
        assert(b@.skip(i as int)[0] == b.parts@[i as int]@);
        if c != 0 {
            return c;
        }
        assert(a@.skip(i as int).skip(1) =~= a@.skip(i + 1));
        assert(b@.skip(i as int).skip(1) =~= b@.skip(i + 1));
        i = i + 1;
    }
    if i < a.parts.len() {
        1
    } else if i < b.parts.len() {
        -1
    } else {
        0
    }
}


/// Whether two paths are the same path, as `==` on `Path` decides.
pub fn paths_equal(a: &FsPath, b: &FsPath) -> (r: bool)
    ensures
        r == (a@ == b@),
{
    proof {
        lemma_path_order_basics(a@, b@);
    }
    compare_paths(a, b) == 0
}

/// Whether `list` holds a path equal to `p`.
pub fn contains_path(list: &Vec<FsPath>, p: &FsPath) -> (r: bool)
    ensures
        r == paths_view(list@).contains(p@),
{
    let mut i: usize = 0;
    while i < list.len()
        invariant
            i <= list@.len(),
            forall|j: int| 0 <= j < i ==> list@[j]@ != p@,
        decreases list@.len() - i,
    {
        if paths_equal(&list[i], p) {
            assert(paths_view(list@)[i as int] == p@);
            return true;
        }
        i = i + 1;
    }
    proof {
        if paths_view(list@).contains(p@) {
            let k = choose|k: int| 0 <= k < paths_view(list@).len() && paths_view(list@)[k] == p@;
            assert(list@[k]@ == p@);
        }
    }
    false
}

/// Position of the last `c` in `s`, if any.
pub open spec fn last_index_of(s: Seq<u8>, c: u8) -> Option<int>
    decreases s.len(),
{
    if s.len() == 0 {
        None
    } else if s.last() == c {
        Some(s.len() - 1)
    } else {
        last_index_of(s.drop_last(), c)
    }
}

/// The extension of a file name, as `Path::extension` finds it: what
/// follows the last `.`, unless there is no `.`, the only `.` opens the
/// name, or the name is `..`.
pub open spec fn name_extension(name: Seq<u8>) -> Option<Seq<u8>> {
    match last_index_of(name, 46) {
        None => None,
        Some(d) => if d == 0 {
            None
        } else {
            Some(name.skip(d + 1))
        },
    }
}

/// ASCII lower case of a byte.
pub open spec fn ascii_lower(b: u8) -> u8 {
    if 65 <= b <= 90 {
        (b + 32) as u8
    } else {
        b
    }
}

/// `ext` equals `pdf` when ASCII case is ignored.
pub open spec fn is_pdf_extension(ext: Seq<u8>) -> bool {
    ext.len() == 3 && ascii_lower(ext[0]) == 112 && ascii_lower(ext[1]) == 100 && ascii_lower(ext[2])
        == 102
}

/// The path names a file whose extension is `pdf` in any ASCII case.
pub open spec fn has_pdf_extension(p: Seq<PartView>) -> bool {
    p.len() > 0 && match p.last() {
        PartView::Normal(name) => match name_extension(name) {
            Some(ext) => is_pdf_extension(ext),
            None => false,
        },
        _ => false,
    }
}

proof fn lemma_last_index_of(s: Seq<u8>, c: u8, d: int)
    requires
        0 <= d < s.len(),
        s[d] == c,
        forall|j: int| d < j < s.len() ==> s[j] != c,
    ensures
        last_index_of(s, c) == Some(d),
    decreases s.len(),
{
    if d < s.len() - 1 {
        lemma_last_index_of(s.drop_last(), c, d);
    }
}

proof fn lemma_last_index_of_none(s: Seq<u8>, c: u8)
    requires
        forall|j: int| 0 <= j < s.len() ==> s[j] != c,
    ensures
        last_index_of(s, c) is None,
    decreases s.len(),
{
    if s.len() > 0 {
        lemma_last_index_of_none(s.drop_last(), c);
    }
}

fn lower(b: u8) -> (r: u8)
    ensures
        r == ascii_lower(b),
{
    if 65 <= b && b <= 90 {
        b + 32
    } else {
        b
    }
}

/// Whether the file name of `p` has the extension `pdf`, ignoring ASCII case.
pub fn is_pdf_file_name(p: &FsPath) -> (r: bool)
    ensures
        r == has_pdf_extension(p@),
{
    let n = p.parts.len();
    if n == 0 {
        return false;
    }
    assert(p@.last() == p.parts@[n - 1]@);
    match &p.parts[n - 1] {
        PathPart::Normal(name) => {
            let len = name.len();
            let mut i = len;
            while i > 0 && name[i - 1] != 46
                invariant
                    i <= len == name@.len(),
                    forall|j: int| i <= j < len ==> name@[j] != 46,
                decreases i,
            {
                i = i - 1;
            }
            if i == 0 {
                proof {
                    lemma_last_index_of_none(name@, 46);
                }
                return false;
            }
            let d = i - 1;
            proof {
                lemma_last_index_of(name@, 46, d as int);
            }
            if d == 0 {
                return false;
            }
            let ghost ext = name@.skip(d + 1);
            if len - (d + 1) != 3 {
                return false;
            }
            assert(ext[0] == name@[d + 1]);
            assert(ext[1] == name@[d + 2]);
            assert(ext[2] == name@[d + 3]);
            lower(name[d + 1]) == 112 && lower(name[d + 2]) == 100 && lower(name[d + 3]) == 102
        },
        _ => false,
    }
}


/// The path of `p` relative to `base`, as `Path::strip_prefix` gives it
/// when `base` is a leading run of components of `p`; `p` itself otherwise.
pub open spec fn relative_to(p: Seq<PartView>, base: Seq<PartView>) -> Seq<PartView> {
    if base.len() <= p.len() && p.take(base.len() as int) == base {
        p.skip(base.len() as int)
    } else {
        p
    }
}

/// The text of one component.
pub open spec fn part_text(p: PartView) -> Seq<u8> {
    match p {
        PartView::RootDir => seq![47u8],
        PartView::CurDir => seq![46u8],
        PartView::ParentDir => seq![46u8, 46u8],
        PartView::Normal(n) => n,
    }
}

/// The bytes of a path: its components separated by `/` (no separator
/// follows the root).
pub open spec fn path_bytes(q: Seq<PartView>) -> Seq<u8>
    decreases q.len(),
{
    if q.len() == 0 {
        Seq::empty()
    } else if q.len() == 1 {
        part_text(q[0])
    } else {
        path_bytes(q.drop_last()) + (if q[q.len() - 2] is RootDir {
            Seq::<u8>::empty()
        } else {
            seq![47u8]
        }) + part_text(q.last())
    }
}

fn append_part_text(out: &mut Vec<u8>, p: &PathPart)
    ensures
        final(out)@ == old(out)@ + part_text(p@),
{
    match p {
        PathPart::RootDir => {
            out.push(47);
        },
        PathPart::CurDir => {
            out.push(46);
        },
        PathPart::ParentDir => {
            out.push(46);
            out.push(46);
        },
        PathPart::Normal(n) => {
            let ghost start = out@;
            let mut i: usize = 0;
            while i < n.len()
                invariant
                    i <= n@.len(),
                    out@ == start + n@.take(i as int),
                decreases n@.len() - i,
            {
                out.push(n[i]);
                assert(n@.take(i + 1) =~= n@.take(i as int).push(n@[i as int]));
                i = i + 1;
            }
            assert(n@.take(n@.len() as int) =~= n@);
        },
    }
    assert(old(out)@ + part_text(p@) =~= final(out)@);
}

/// The bytes of `p` relative to `base`, which is what a glob pattern is
/// matched against.
pub fn relative_bytes(p: &FsPath, base: &FsPath) -> (r: Vec<u8>)
    ensures
        r@ == path_bytes(relative_to(p@, base@)),
{
    let n = p.parts.len();
    let m = base.parts.len();
    let mut from: usize = 0;
    if m <= n {
        let mut k: usize = 0;
        let mut same = true;
        while k < m
            invariant
                m <= n,
                n == p@.len(),
                m == base@.len(),
                k <= m,
                same ==> forall|j: int| 0 <= j < k ==> p@[j] == base@[j],
                !same ==> p@.take(m as int) != base@,
            decreases m - k,
        {
            let c = compare_parts(&p.parts[k], &base.parts[k]);
            proof {
                lemma_part_order_basics(p@[k as int], base@[k as int]);
                assert(p@[k as int] == p.parts@[k as int]@);
                assert(base@[k as int] == base.parts@[k as int]@);
            }
            if c != 0 {
                assert(p@.take(m as int)[k as int] != base@[k as int]);
                same = false;
            }
            k = k + 1;
        }
        if same {
            assert(p@.take(m as int) =~= base@);
            from = m;
        }
    }
    let ghost q = relative_to(p@, base@);
    assert(q =~= p@.skip(from as int));
    let mut out: Vec<u8> = Vec::new();
    let mut i = from;
    assert(p@.skip(from as int).take(0) =~= Seq::<PartView>::empty());
    while i < n
        invariant
            from <= i <= n == p@.len(),
            q == p@.skip(from as int),
            out@ == path_bytes(q.take(i - from)),
        decreases n - i,
    {
        let ghost prev = q.take(i - from);
        let ghost next = q.take(i - from + 1);
        assert(next.drop_last() =~= prev);
        assert(next.last() == p.parts@[i as int]@);
        if i > from {
            assert(next[next.len() - 2] == p.parts@[i - 1]@);
            match &p.parts[i - 1] {
                PathPart::RootDir => {},
                _ => {
                    out.push(47);
                },
            }
        } else {
            assert(prev =~= Seq::<PartView>::empty());
        }
        append_part_text(&mut out, &p.parts[i]);
        i = i + 1;
    }
    assert(q.take(n - from) =~= q);
    out
}

/// Sorts paths into ascending order, as `Vec<PathBuf>::sort` does.
pub fn sort_paths(v: Vec<FsPath>) -> (r: Vec<FsPath>)
    ensures
        sorted_paths(paths_view(r@)),
        paths_view(r@).to_multiset() == paths_view(v@).to_multiset(),
{
    broadcast use vstd::seq_lib::group_to_multiset_ensures;

    let ghost orig = paths_view(v@);
    let mut rest = v;
    let mut out: Vec<FsPath> = Vec::new();
    assert(paths_view(out@) =~= Seq::<Seq<PartView>>::empty());
    while rest.len() > 0
        invariant
            sorted_paths(paths_view(out@)),
            paths_view(out@).to_multiset().add(paths_view(rest@).to_multiset()) == orig.to_multiset(),
        decreases rest@.len(),
    {
        let ghost rest_before = rest@;
        let x = rest.pop().unwrap();
        proof {
            assert(paths_view(rest_before) =~= paths_view(rest@).push(x@));
        }
        let mut p: usize = 0;
        while p < out.len() && compare_paths(&out[p], &x) <= 0
            invariant
                p <= out@.len(),
                forall|k: int| 0 <= k < p ==> path_le(#[trigger] paths_view(out@)[k], x@),
            decreases out@.len() - p,
        {
            assert(paths_view(out@)[p as int] == out@[p as int]@);
            p = p + 1;
        }
        let ghost old_out = paths_view(out@);
        proof {
            if p < out@.len() {
                assert(old_out[p as int] == out@[p as int]@);
                lemma_path_order_basics(old_out[p as int], x@);
                assert forall|k: int| p <= k < old_out.len() implies path_le(x@, old_out[k]) by {
                    if k > p {
                        lemma_path_order_trans(x@, old_out[p as int], old_out[k]);
                    }
                }
            }
        }
        out.insert(p, x);
        proof {
            let nv = paths_view(out@);
            assert(nv =~= old_out.insert(p as int, x@));
            vstd::seq_lib::to_multiset_insert(old_out, p as int, x@);
            vstd::seq_lib::to_multiset_build(paths_view(rest@), x@);
            broadcast use vstd::multiset::group_multiset_axioms;
            assert(paths_view(rest_before).to_multiset() =~= paths_view(rest@).to_multiset().insert(x@));
            assert(nv.to_multiset().add(paths_view(rest@).to_multiset()) =~= old_out.to_multiset().add(
                paths_view(rest_before).to_multiset(),
            ));
            assert forall|i: int, j: int| 0 <= i < j < nv.len() implies path_le(
                #[trigger] nv[i],
                #[trigger] nv[j],
            ) by {
                if j < p {
                    assert(nv[i] == old_out[i] && nv[j] == old_out[j]);
                } else if j == p {
                    assert(nv[i] == old_out[i]);
                } else if i == p {
                    assert(nv[j] == old_out[j - 1]);
                } else if i < p {
                    assert(nv[i] == old_out[i] && nv[j] == old_out[j - 1]);
                    lemma_path_order_trans(old_out[i], x@, old_out[j - 1]);
                } else {
                    assert(nv[i] == old_out[i - 1] && nv[j] == old_out[j - 1]);
                }
            }
        }
    }
    assert(paths_view(rest@) =~= Seq::<Seq<PartView>>::empty());
    out
}

} // verus!
