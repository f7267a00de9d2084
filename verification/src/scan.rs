//! Choosing the PDF files of a directory tree: regular files with a `.pdf`
//! extension (any ASCII case), kept by the include globs, not dropped by the
//! exclude globs, minus paths to skip, sorted by path.

use vstd::prelude::*;
use globset::GlobSet;
use crate::glob::{
    any_glob_matches, build_globset, first_invalid, glob_matches, glob_set_builds, glob_set_is_empty,
    glob_set_is_match, set_patterns, texts, GlobSetError,
};
use crate::paths::{
    contains_path, has_pdf_extension, is_pdf_file_name, path_bytes, paths_view, relative_bytes,
    relative_to, sort_paths, sorted_paths, strictly_sorted_paths, lemma_sorted_once_is_strict,
    lemma_contained_is_subsequence, is_subsequence_of, FsPath, PartView,
};

verus! {

/// What a directory walk reports of one entry: its path as walked, the
/// path it resolves to (links and `.`/`..` followed), and whether it is a
/// regular file.
#[derive(Debug)]
pub struct DirEntryInfo {
    pub path: FsPath,
    pub real_path: FsPath,
    pub is_file: bool,
}

/// Why a set of PDF files could not be chosen.
#[derive(Debug)]
pub enum ScanError {
    /// This include pattern is not a valid glob.
    InvalidInclude(String),
    /// This exclude pattern is not a valid glob.
    InvalidExclude(String),
    /// The include patterns are valid, but `globset` cannot compile them.
    IncludeSetRejected,
    /// The exclude patterns are valid, but `globset` cannot compile them.
    ExcludeSetRejected,
    /// No PDF file remained to merge.
    NoPdfFound,
}

/// Whether the entry at `path`, which resolves to `resolved`, is chosen. Globs
/// are matched against the path relative to `dir`; no include pattern means
/// every file is included; the paths to skip are compared with `resolved`.
pub open spec fn entry_chosen(
    path: Seq<PartView>,
    resolved: Seq<PartView>,
    is_file: bool,
    dir: Seq<PartView>,
    includes: Seq<Seq<char>>,
    excludes: Seq<Seq<char>>,
    skip: Seq<Seq<PartView>>,
) -> bool {
    let rel = path_bytes(relative_to(path, dir));
    &&& is_file
    &&& has_pdf_extension(path)
    &&& !skip.contains(resolved)
    &&& (includes.len() == 0 || any_glob_matches(includes, rel))
    &&& !any_glob_matches(excludes, rel)
}

/// The paths of the chosen entries, in walk order.
pub open spec fn chosen_paths(
    entries: Seq<DirEntryInfo>,
    dir: Seq<PartView>,
    includes: Seq<Seq<char>>,
    excludes: Seq<Seq<char>>,
    skip: Seq<Seq<PartView>>,
) -> Seq<Seq<PartView>>
    decreases entries.len(),
{
    if entries.len() == 0 {
        Seq::empty()
    } else {
        let rest = chosen_paths(entries.drop_last(), dir, includes, excludes, skip);
        let e = entries.last();
        if entry_chosen(e.path@, e.real_path@, e.is_file, dir, includes, excludes, skip) {
            rest.push(e.path@)
        } else {
            rest
        }
    }
}

/// No two entries of the walk have the same path (as a directory walk
/// reports them).
pub open spec fn walk_paths_distinct(entries: Seq<DirEntryInfo>) -> bool {
    forall|i: int, j: int| 0 <= i < j < entries.len() ==> (#[trigger] entries[i]).path@ != (
    #[trigger] entries[j]).path@
}

/// What choosing the PDF files of a walk under `dir` yields: an error
/// naming the first invalid include pattern, else an error when the include
/// patterns cannot be compiled together, then the same two checks for the
/// exclude patterns; otherwise exactly the chosen paths, sorted (strictly
/// when the walk reports each path once).
pub open spec fn collect_outcome(
    r: Result<Vec<FsPath>, ScanError>,
    dir: Seq<PartView>,
    entries: Seq<DirEntryInfo>,
    includes: Seq<String>,
    excludes: Seq<String>,
    skip: Seq<Seq<PartView>>,
) -> bool {
    match r {
        Ok(v) => {
            &&& globs_usable(texts(includes))
            &&& globs_usable(texts(excludes))
            &&& sorted_paths(paths_view(v@))
            &&& walk_paths_distinct(entries) ==> strictly_sorted_paths(paths_view(v@))
            &&& paths_view(v@).to_multiset() == chosen_paths(
                entries,
                dir,
                texts(includes),
                texts(excludes),
                skip,
            ).to_multiset()
        },
        Err(ScanError::InvalidInclude(p)) => match first_invalid(texts(includes)) {
            Some(i) => p@ == includes[i]@,
            None => false,
        },
        Err(ScanError::IncludeSetRejected) => first_invalid(texts(includes)) is None
            && !glob_set_builds(texts(includes)),
        Err(ScanError::InvalidExclude(p)) => globs_usable(texts(includes)) && match first_invalid(
            texts(excludes),
        ) {
            Some(i) => p@ == excludes[i]@,
            None => false,
        },
        Err(ScanError::ExcludeSetRejected) => globs_usable(texts(includes)) && first_invalid(
            texts(excludes),
        ) is None && !glob_set_builds(texts(excludes)),
        Err(ScanError::NoPdfFound) => false,
    }
}

/// Every pattern is a valid glob and `globset` compiles them together.
pub open spec fn globs_usable(patterns: Seq<Seq<char>>) -> bool {
    first_invalid(patterns) is None && glob_set_builds(patterns)
}

fn scan_globset(patterns: &Vec<String>, is_include: bool) -> (r: Result<GlobSet, ScanError>)
    ensures
        match r {
            Ok(g) => globs_usable(texts(patterns@)) && set_patterns(g) == texts(patterns@),
            Err(ScanError::InvalidInclude(p)) => is_include && match first_invalid(texts(patterns@)) {
                Some(i) => p@ == patterns@[i]@,
                None => false,
            },
            Err(ScanError::InvalidExclude(p)) => !is_include && match first_invalid(texts(patterns@)) {
                Some(i) => p@ == patterns@[i]@,
                None => false,
            },
            Err(ScanError::IncludeSetRejected) => is_include && first_invalid(texts(patterns@)) is None
                && !glob_set_builds(texts(patterns@)),
            Err(ScanError::ExcludeSetRejected) => !is_include && first_invalid(texts(patterns@)) is None
                && !glob_set_builds(texts(patterns@)),
            Err(ScanError::NoPdfFound) => false,
        },
{
    match build_globset(patterns) {
        Ok(g) => Ok(g),
        Err(GlobSetError::InvalidPattern(i)) => {
            proof {
                crate::glob::lemma_first_invalid_bounds(texts(patterns@));
            }
            let p = patterns[i].clone();
            if is_include {
                Err(ScanError::InvalidInclude(p))
            } else {
                Err(ScanError::InvalidExclude(p))
            }
        },
        Err(GlobSetError::Rejected) => {
            if is_include {
                Err(ScanError::IncludeSetRejected)
            } else {
                Err(ScanError::ExcludeSetRejected)
            }
        },
    }
}

/// Chooses, among the entries of a walk under `input_dir`, the PDF files
/// to process, in ascending path order. Globs are matched against paths
/// relative to `input_dir`; an entry whose resolved path is one of
/// `extra_exclude_paths` is never chosen.
pub fn collect_pdfs(
    input_dir: &FsPath,
    entries: Vec<DirEntryInfo>,
    includes: &Vec<String>,
    excludes: &Vec<String>,
    extra_exclude_paths: &Vec<FsPath>,
) -> (r: Result<Vec<FsPath>, ScanError>)
    ensures
        collect_outcome(r, input_dir@, entries@, includes@, excludes@, paths_view(extra_exclude_paths@)),
{
    broadcast use vstd::seq_lib::group_to_multiset_ensures;

    let include_set = match scan_globset(includes, true) {
        Ok(g) => g,
        Err(e) => {
            return Err(e);
        },
    };
    let exclude_set = match scan_globset(excludes, false) {
        Ok(g) => g,
        Err(e) => {
            return Err(e);
        },
    };
    let ghost dir = input_dir@;
    let ghost inc = texts(includes@);
    let ghost exc = texts(excludes@);
    let ghost skip = paths_view(extra_exclude_paths@);
    let ghost all = chosen_paths(entries@, dir, inc, exc, skip);
    let mut rest = entries;
    let mut kept: Vec<FsPath> = Vec::new();
    assert(paths_view(kept@) =~= Seq::<Seq<PartView>>::empty());
    while rest.len() > 0
        invariant
            set_patterns(include_set) == inc,
            set_patterns(exclude_set) == exc,
            dir == input_dir@,
            skip == paths_view(extra_exclude_paths@),
            paths_view(kept@).to_multiset().add(
                chosen_paths(rest@, dir, inc, exc, skip).to_multiset(),
            ) == all.to_multiset(),
        decreases rest@.len(),
    {
        let ghost before = rest@;
        let entry = rest.pop().unwrap();
        assert(before.drop_last() =~= rest@);
        let rel = relative_bytes(&entry.path, input_dir);
        let include_ok = if glob_set_is_empty(&include_set) {
            true
        } else {
            glob_set_is_match(&include_set, rel.as_slice())
        };
        let exclude_hit = if glob_set_is_empty(&exclude_set) {
            false
        } else {
            glob_set_is_match(&exclude_set, rel.as_slice())
        };
        let chosen = entry.is_file && is_pdf_file_name(&entry.path) && !contains_path(
            extra_exclude_paths,
            &entry.real_path,
        ) && include_ok && !exclude_hit;
        proof {
            assert(chosen == entry_chosen(entry.path@, entry.real_path@, entry.is_file, dir, inc, exc, skip));
        }
        let ghost kept_before = paths_view(kept@);
        if chosen {
            kept.push(entry.path);
            proof {
                broadcast use vstd::multiset::group_multiset_axioms;

                assert(paths_view(kept@) =~= kept_before.push(entry.path@));
                vstd::seq_lib::to_multiset_build(kept_before, entry.path@);
                vstd::seq_lib::to_multiset_build(chosen_paths(rest@, dir, inc, exc, skip), entry.path@);
                assert(paths_view(kept@).to_multiset().add(
                    chosen_paths(rest@, dir, inc, exc, skip).to_multiset(),
                ) =~= kept_before.to_multiset().add(chosen_paths(before, dir, inc, exc, skip).to_multiset()));
            }
        }
    }
    proof {
        broadcast use vstd::multiset::group_multiset_axioms;

        assert(chosen_paths(rest@, dir, inc, exc, skip) =~= Seq::<Seq<PartView>>::empty());
        assert(paths_view(kept@).to_multiset() =~= all.to_multiset());
    }
    let sorted = sort_paths(kept);
    proof {
        if walk_paths_distinct(entries@) {
            lemma_chosen_once(entries@, dir, inc, exc, skip);
            lemma_sorted_once_is_strict(paths_view(sorted@));
        }
    }
    Ok(sorted)
}


proof fn lemma_chosen_sound(
    entries: Seq<DirEntryInfo>,
    dir: Seq<PartView>,
    includes: Seq<Seq<char>>,
    excludes: Seq<Seq<char>>,
    skip: Seq<Seq<PartView>>,
    x: Seq<PartView>,
)
    requires
        chosen_paths(entries, dir, includes, excludes, skip).contains(x),
    ensures
        exists|i: int|
            0 <= i < entries.len() && (#[trigger] entries[i]).path@ == x && entry_chosen(
                x,
                entries[i].real_path@,
                entries[i].is_file,
                dir,
                includes,
                excludes,
                skip,
            ),
    decreases entries.len(),
{
    let init = entries.drop_last();
    let rest = chosen_paths(init, dir, includes, excludes, skip);
    let e = entries.last();
    if rest.contains(x) {
        lemma_chosen_sound(init, dir, includes, excludes, skip, x);
        let i = choose|i: int|
            0 <= i < init.len() && (#[trigger] init[i]).path@ == x && entry_chosen(
                x,
                init[i].real_path@,
                init[i].is_file,
                dir,
                includes,
                excludes,
                skip,
            );
        assert(entries[i] == init[i]);
    } else {
        let c = chosen_paths(entries, dir, includes, excludes, skip);
        if !entry_chosen(e.path@, e.real_path@, e.is_file, dir, includes, excludes, skip) {
            assert(c == rest);
        } else {
            let k = choose|k: int| 0 <= k < c.len() && c[k] == x;
            if k < rest.len() {
                assert(rest[k] == x);
            }
            assert(entries[entries.len() - 1] == e);
        }
    }
}

/// Every file that choosing yields comes from the walk and passes every
/// filter: it is a regular file, its extension is `pdf` in some ASCII case,
/// it does not resolve to a path to skip, it matches an include glob (or
/// there is none), and it matches no exclude glob. In particular the output
/// of a merge is never one of its inputs, however either path is spelled,
/// as long as the caller gives each entry's resolved path and the output's
/// resolved the same way (the command line resolves both with
/// `fs::canonicalize`).
pub proof fn lemma_chosen_files_pass_filters(
    v: Seq<FsPath>,
    dir: Seq<PartView>,
    entries: Seq<DirEntryInfo>,
    includes: Seq<String>,
    excludes: Seq<String>,
    skip: Seq<Seq<PartView>>,
    x: Seq<PartView>,
)
    requires
        paths_view(v).to_multiset() == chosen_paths(
            entries,
            dir,
            texts(includes),
            texts(excludes),
            skip,
        ).to_multiset(),
        paths_view(v).contains(x),
    ensures
        has_pdf_extension(x),
        exists|i: int|
            0 <= i < entries.len() && (#[trigger] entries[i]).path@ == x && entries[i].is_file
                && !skip.contains(entries[i].real_path@),
        texts(includes).len() == 0 || any_glob_matches(
            texts(includes),
            path_bytes(relative_to(x, dir)),
        ),
        !any_glob_matches(texts(excludes), path_bytes(relative_to(x, dir))),
{
    broadcast use vstd::seq_lib::group_to_multiset_ensures;

    let c = chosen_paths(entries, dir, texts(includes), texts(excludes), skip);
    assert(paths_view(v).to_multiset().count(x) > 0);
    assert(c.to_multiset().count(x) > 0);
    assert(c.contains(x));
    lemma_chosen_sound(entries, dir, texts(includes), texts(excludes), skip, x);
}


proof fn lemma_chosen_complete(
    entries: Seq<DirEntryInfo>,
    dir: Seq<PartView>,
    includes: Seq<Seq<char>>,
    excludes: Seq<Seq<char>>,
    skip: Seq<Seq<PartView>>,
    i: int,
)
    requires
        0 <= i < entries.len(),
        entry_chosen(
            entries[i].path@,
            entries[i].real_path@,
            entries[i].is_file,
            dir,
            includes,
            excludes,
            skip,
        ),
    ensures
        chosen_paths(entries, dir, includes, excludes, skip).contains(entries[i].path@),
    decreases entries.len(),
{
    let init = entries.drop_last();
    let c = chosen_paths(entries, dir, includes, excludes, skip);
    let rest = chosen_paths(init, dir, includes, excludes, skip);
    if i < entries.len() - 1 {
        assert(init[i] == entries[i]);
        lemma_chosen_complete(init, dir, includes, excludes, skip, i);
        let k = choose|k: int| 0 <= k < rest.len() && rest[k] == entries[i].path@;
        assert(c[k] == rest[k]);
    } else {
        assert(c[c.len() - 1] == entries[i].path@);
    }
}

/// Every regular file of the walk that passes the filters is chosen: with
/// no include glob every PDF file is included, and only the exclude globs
/// and the paths to skip drop one.
pub proof fn lemma_passing_files_are_chosen(
    v: Seq<FsPath>,
    dir: Seq<PartView>,
    entries: Seq<DirEntryInfo>,
    includes: Seq<String>,
    excludes: Seq<String>,
    skip: Seq<Seq<PartView>>,
    i: int,
)
    requires
        paths_view(v).to_multiset() == chosen_paths(
            entries,
            dir,
            texts(includes),
            texts(excludes),
            skip,
        ).to_multiset(),
        0 <= i < entries.len(),
        entries[i].is_file,
        has_pdf_extension(entries[i].path@),
        !skip.contains(entries[i].real_path@),
        texts(includes).len() == 0 || any_glob_matches(
            texts(includes),
            path_bytes(relative_to(entries[i].path@, dir)),
        ),
        !any_glob_matches(texts(excludes), path_bytes(relative_to(entries[i].path@, dir))),
    ensures
        paths_view(v).contains(entries[i].path@),
{
    broadcast use vstd::seq_lib::group_to_multiset_ensures;

    let x = entries[i].path@;
    lemma_chosen_complete(entries, dir, texts(includes), texts(excludes), skip, i);
    let c = chosen_paths(entries, dir, texts(includes), texts(excludes), skip);
    assert(c.to_multiset().count(x) > 0);
    assert(paths_view(v).to_multiset().count(x) > 0);
}

/// Choosing is monotone in its filters: when every entry that the first
/// filters keep is kept by the second ones too, the paths the first choose
/// are among those the second choose, counted with repetition.
proof fn lemma_chosen_monotone(
    entries: Seq<DirEntryInfo>,
    dir: Seq<PartView>,
    inc1: Seq<Seq<char>>,
    exc1: Seq<Seq<char>>,
    skip1: Seq<Seq<PartView>>,
    inc2: Seq<Seq<char>>,
    exc2: Seq<Seq<char>>,
    skip2: Seq<Seq<PartView>>,
)
    requires
        forall|p: Seq<PartView>, q: Seq<PartView>, f: bool|
            #[trigger] entry_chosen(p, q, f, dir, inc1, exc1, skip1) ==> entry_chosen(
                p,
                q,
                f,
                dir,
                inc2,
                exc2,
                skip2,
            ),
    ensures
        chosen_paths(entries, dir, inc1, exc1, skip1).to_multiset().subset_of(
            chosen_paths(entries, dir, inc2, exc2, skip2).to_multiset(),
        ),
    decreases entries.len(),
{
    broadcast use vstd::seq_lib::group_to_multiset_ensures;
    broadcast use vstd::multiset::group_multiset_axioms;

    if entries.len() > 0 {
        let init = entries.drop_last();
        lemma_chosen_monotone(init, dir, inc1, exc1, skip1, inc2, exc2, skip2);
        let e = entries.last();
        let c1 = chosen_paths(init, dir, inc1, exc1, skip1);
        let c2 = chosen_paths(init, dir, inc2, exc2, skip2);
        let k1 = entry_chosen(e.path@, e.real_path@, e.is_file, dir, inc1, exc1, skip1);
        let k2 = entry_chosen(e.path@, e.real_path@, e.is_file, dir, inc2, exc2, skip2);
        if k1 {
            assert(k2);
        }
        assert forall|z| #[trigger]
            chosen_paths(entries, dir, inc1, exc1, skip1).to_multiset().count(z) <= chosen_paths(
                entries,
                dir,
                inc2,
                exc2,
                skip2,
            ).to_multiset().count(z) by {
            assert(c1.to_multiset().count(z) <= c2.to_multiset().count(z));
        }
    }
}

/// More exclude globs or more paths to skip never add a file: on the same
/// walk, what is chosen with the extra exclude globs `more_excludes` and the
/// extra paths `more_skip` is among what is chosen without them, and when
/// the walk reports each path once it is a subsequence of it.
pub proof fn lemma_more_excludes_choose_fewer(
    wide: Seq<FsPath>,
    narrow: Seq<FsPath>,
    dir: Seq<PartView>,
    entries: Seq<DirEntryInfo>,
    includes: Seq<String>,
    excludes: Seq<String>,
    more_excludes: Seq<String>,
    skip: Seq<Seq<PartView>>,
    more_skip: Seq<Seq<PartView>>,
)
    requires
        paths_view(wide).to_multiset() == chosen_paths(
            entries,
            dir,
            texts(includes),
            texts(excludes),
            skip,
        ).to_multiset(),
        paths_view(narrow).to_multiset() == chosen_paths(
            entries,
            dir,
            texts(includes),
            texts(excludes + more_excludes),
            skip + more_skip,
        ).to_multiset(),
        sorted_paths(paths_view(wide)),
        sorted_paths(paths_view(narrow)),
    ensures
        paths_view(narrow).to_multiset().subset_of(paths_view(wide).to_multiset()),
        walk_paths_distinct(entries) ==> is_subsequence_of(paths_view(narrow), paths_view(wide)),
{
    let inc = texts(includes);
    let exc = texts(excludes);
    let exc2 = texts(excludes + more_excludes);
    let skip2 = skip + more_skip;
    assert(exc2 =~= exc + texts(more_excludes));
    assert forall|p: Seq<PartView>, q: Seq<PartView>, f: bool|
        #[trigger] entry_chosen(p, q, f, dir, inc, exc2, skip2) implies entry_chosen(
            p,
            q,
            f,
            dir,
            inc,
            exc,
            skip,
        ) by {
        let rel = path_bytes(relative_to(p, dir));
        if any_glob_matches(exc, rel) {
            let i = choose|i: int| 0 <= i < exc.len() && glob_matches(#[trigger] exc[i], rel);
            assert(exc2[i] == exc[i]);
        }
        if skip.contains(q) {
            let k = choose|k: int| 0 <= k < skip.len() && skip[k] == q;
            assert(skip2[k] == q);
        }
    }
    lemma_chosen_monotone(entries, dir, inc, exc2, skip2, inc, exc, skip);
    if walk_paths_distinct(entries) {
        lemma_result_strict(wide, entries, dir, inc, exc, skip);
        lemma_result_strict(narrow, entries, dir, inc, exc2, skip2);
        lemma_contained_is_subsequence(paths_view(narrow), paths_view(wide));
    }
}

/// More include globs never drop a file, and no include glob at all keeps
/// every file: when `includes` is not empty and each of its patterns is
/// also a pattern of `more_includes`, what `includes` chooses is among what
/// `more_includes` chooses, which is among what an empty include list
/// chooses (on the same walk, with the same excludes and paths to skip);
/// when the walk reports each path once, each list is a subsequence of the
/// next.
pub proof fn lemma_more_includes_choose_more(
    narrow: Seq<FsPath>,
    wider: Seq<FsPath>,
    widest: Seq<FsPath>,
    dir: Seq<PartView>,
    entries: Seq<DirEntryInfo>,
    includes: Seq<String>,
    more_includes: Seq<String>,
    excludes: Seq<String>,
    skip: Seq<Seq<PartView>>,
)
    requires
        includes.len() > 0,
        forall|i: int| 0 <= i < includes.len() ==> texts(more_includes).contains(#[trigger] includes[i]@),
        paths_view(narrow).to_multiset() == chosen_paths(
            entries,
            dir,
            texts(includes),
            texts(excludes),
            skip,
        ).to_multiset(),
        paths_view(wider).to_multiset() == chosen_paths(
            entries,
            dir,
            texts(more_includes),
            texts(excludes),
            skip,
        ).to_multiset(),
        paths_view(widest).to_multiset() == chosen_paths(
            entries,
            dir,
            Seq::<Seq<char>>::empty(),
            texts(excludes),
            skip,
        ).to_multiset(),
        sorted_paths(paths_view(narrow)),
        sorted_paths(paths_view(wider)),
        sorted_paths(paths_view(widest)),
    ensures
        paths_view(narrow).to_multiset().subset_of(paths_view(wider).to_multiset()),
        paths_view(wider).to_multiset().subset_of(paths_view(widest).to_multiset()),
        walk_paths_distinct(entries) ==> is_subsequence_of(paths_view(narrow), paths_view(wider)),
        walk_paths_distinct(entries) ==> is_subsequence_of(paths_view(wider), paths_view(widest)),
{
    let inc = texts(includes);
    let more = texts(more_includes);
    let exc = texts(excludes);
    let none = Seq::<Seq<char>>::empty();
    assert forall|p: Seq<PartView>, q: Seq<PartView>, f: bool|
        #[trigger] entry_chosen(p, q, f, dir, inc, exc, skip) implies entry_chosen(
            p,
            q,
            f,
            dir,
            more,
            exc,
            skip,
        ) by {
        let rel = path_bytes(relative_to(p, dir));
        let i = choose|i: int| 0 <= i < inc.len() && glob_matches(#[trigger] inc[i], rel);
        assert(inc[i] == includes[i]@);
        assert(more.contains(includes[i]@));
        let k = choose|k: int| 0 <= k < more.len() && more[k] == includes[i]@;
        assert(glob_matches(more[k], rel));
    }
    assert forall|p: Seq<PartView>, q: Seq<PartView>, f: bool|
        #[trigger] entry_chosen(p, q, f, dir, more, exc, skip) implies entry_chosen(
            p,
            q,
            f,
            dir,
            none,
            exc,
            skip,
        ) by {}
    lemma_chosen_monotone(entries, dir, inc, exc, skip, more, exc, skip);
    lemma_chosen_monotone(entries, dir, more, exc, skip, none, exc, skip);
    if walk_paths_distinct(entries) {
        lemma_result_strict(narrow, entries, dir, inc, exc, skip);
        lemma_result_strict(wider, entries, dir, more, exc, skip);
        lemma_result_strict(widest, entries, dir, none, exc, skip);
        lemma_contained_is_subsequence(paths_view(narrow), paths_view(wider));
        lemma_contained_is_subsequence(paths_view(wider), paths_view(widest));
    }
}

/// A sorted result of choosing over a walk that reports each path once is
/// strictly ascending.
proof fn lemma_result_strict(
    v: Seq<FsPath>,
    entries: Seq<DirEntryInfo>,
    dir: Seq<PartView>,
    includes: Seq<Seq<char>>,
    excludes: Seq<Seq<char>>,
    skip: Seq<Seq<PartView>>,
)
    requires
        walk_paths_distinct(entries),
        sorted_paths(paths_view(v)),
        paths_view(v).to_multiset() == chosen_paths(entries, dir, includes, excludes, skip).to_multiset(),
    ensures
        strictly_sorted_paths(paths_view(v)),
{
    lemma_chosen_once(entries, dir, includes, excludes, skip);
    assert forall|x: Seq<PartView>| #[trigger] paths_view(v).to_multiset().count(x) <= 1 by {
        assert(chosen_paths(entries, dir, includes, excludes, skip).to_multiset().count(x) <= 1);
    }
    lemma_sorted_once_is_strict(paths_view(v));
}

/// When the walk reports each path once, each chosen path is chosen once.
proof fn lemma_chosen_once(
    entries: Seq<DirEntryInfo>,
    dir: Seq<PartView>,
    includes: Seq<Seq<char>>,
    excludes: Seq<Seq<char>>,
    skip: Seq<Seq<PartView>>,
)
    requires
        walk_paths_distinct(entries),
    ensures
        forall|x: Seq<PartView>|
            #[trigger] chosen_paths(entries, dir, includes, excludes, skip).to_multiset().count(x) <= 1,
    decreases entries.len(),
{
    broadcast use vstd::seq_lib::group_to_multiset_ensures;
    broadcast use vstd::multiset::group_multiset_axioms;

    if entries.len() > 0 {
        let init = entries.drop_last();
        assert(walk_paths_distinct(init)) by {
            assert forall|i: int, j: int| 0 <= i < j < init.len() implies (#[trigger] init[i]).path@ != (
            #[trigger] init[j]).path@ by {
                assert(init[i] == entries[i] && init[j] == entries[j]);
            }
        }
        lemma_chosen_once(init, dir, includes, excludes, skip);
        let rest = chosen_paths(init, dir, includes, excludes, skip);
        let e = entries.last();
        if entry_chosen(e.path@, e.real_path@, e.is_file, dir, includes, excludes, skip) {
            if rest.contains(e.path@) {
                lemma_chosen_sound(init, dir, includes, excludes, skip, e.path@);
                let i = choose|i: int|
                    0 <= i < init.len() && (#[trigger] init[i]).path@ == e.path@ && entry_chosen(
                        e.path@,
                        init[i].real_path@,
                        init[i].is_file,
                        dir,
                        includes,
                        excludes,
                        skip,
                    );
                assert(entries[i] == init[i]);
                assert(entries[entries.len() - 1] == e);
            }
            assert forall|x: Seq<PartView>|
                #[trigger] chosen_paths(entries, dir, includes, excludes, skip).to_multiset().count(x)
                    <= 1 by {
                assert(rest.push(e.path@).to_multiset().count(x) == rest.to_multiset().count(x) + if x
                    == e.path@ {
                    1int
                } else {
                    0int
                });
            }
        }
    }
}

} // verus!
