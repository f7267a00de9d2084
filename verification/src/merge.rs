//! Merging: which files are merged, and the merged document built one
//! input at a time, each input contributing the pages that the page-range
//! specification selects in it.

use vstd::prelude::*;
use lopdf::Document;
use crate::glob::texts;
use crate::page_spec::{
    comma_pieces, expand_to_indexes, expanded, first_page, item_of, last_page,
    lemma_selected_iff_covered, parse_spec, spec_ranges, spec_well_formed, PageSpecError,
};
use crate::paths::{lemma_sorted_unique, paths_view, FsPath, PartView};
use crate::pdf::{
    absorbed, all_dictionaries, doc_dictionary_ids, doc_dicts, doc_max_id, doc_object_count,
    doc_object_ids, doc_pages, doc_streams, doc_trailer, doc_version, finish_document,
    ids_at_most_max, index_filter, kept_by_position, lemma_written_tree_is_linked, max_object_id, move_objects, new_document,
    next_tree, no_dictionaries, no_entries, no_streams, object_count, page_ids, page_tree_linked,
    renumber_objects, renumbered_from, renumbered_pages, select_pages, set_max_object_id,
    tree_written, AssembleError,
};
use crate::scan::{chosen_paths, collect_outcome, collect_pdfs, globs_usable, DirEntryInfo, ScanError};

verus! {

/// Whether an output file may be written: it does not exist yet, or
/// overwriting was asked for.
pub fn overwrite_allowed(already_exists: bool, force: bool) -> (r: bool)
    ensures
        r == (!already_exists || force),
{
    !already_exists || force
}

/// What choosing the files of a merge yields: `NoPdfFound` when the globs
/// are usable but no file is chosen; otherwise what `collect_pdfs` yields
/// with `output` as the one path to skip, and never an empty list.
pub open spec fn merge_inputs_outcome(
    r: Result<Vec<FsPath>, ScanError>,
    dir: Seq<PartView>,
    entries: Seq<DirEntryInfo>,
    includes: Seq<String>,
    excludes: Seq<String>,
    output: Seq<PartView>,
) -> bool {
    match r {
        Err(ScanError::NoPdfFound) => {
            &&& globs_usable(texts(includes))
            &&& globs_usable(texts(excludes))
            &&& chosen_paths(entries, dir, texts(includes), texts(excludes), seq![output]).len() == 0
        },
        _ => {
            &&& collect_outcome(r, dir, entries, includes, excludes, seq![output])
            &&& r is Ok ==> r->Ok_0@.len() > 0
        },
    }
}

/// Chooses the files to merge: the PDF files under `input_dir` (see
/// `collect_pdfs`), never the output file itself, which `output` gives as
/// the path it resolves to; fails when no file remains.
pub fn select_merge_inputs(
    input_dir: &FsPath,
    entries: Vec<DirEntryInfo>,
    output: FsPath,
    includes: &Vec<String>,
    excludes: &Vec<String>,
) -> (r: Result<Vec<FsPath>, ScanError>)
    ensures
        merge_inputs_outcome(r, input_dir@, entries@, includes@, excludes@, output@),
{
    broadcast use vstd::seq_lib::group_to_multiset_ensures;

    let ghost out_view = output@;
    let mut skip: Vec<FsPath> = Vec::new();
    skip.push(output);
    assert(paths_view(skip@) =~= seq![out_view]);
    let found = collect_pdfs(input_dir, entries, includes, excludes, &skip);
    match found {
        Ok(v) => {
            if v.len() == 0 {
                proof {
                    let c = chosen_paths(
                        entries@,
                        input_dir@,
                        texts(includes@),
                        texts(excludes@),
                        seq![out_view],
                    );
                    assert(paths_view(v@).len() == 0);
                    assert(c.to_multiset().len() == 0);
                }
                Err(ScanError::NoPdfFound)
            } else {
                Ok(v)
            }
        },
        Err(e) => Err(e),
    }
}

/// A merge takes exactly the files that `collect_pdfs` chooses on the same
/// walk with the output as the one path to skip, in the same order, when
/// that choice is not empty; when it is empty the merge fails with
/// `NoPdfFound`; when it fails the merge fails too.
pub proof fn lemma_merge_inputs_are_collected(
    merged: Result<Vec<FsPath>, ScanError>,
    collected: Result<Vec<FsPath>, ScanError>,
    dir: Seq<PartView>,
    entries: Seq<DirEntryInfo>,
    includes: Seq<String>,
    excludes: Seq<String>,
    output: Seq<PartView>,
)
    requires
        merge_inputs_outcome(merged, dir, entries, includes, excludes, output),
        collect_outcome(collected, dir, entries, includes, excludes, seq![output]),
    ensures
        collected matches Ok(v) ==> (v@.len() > 0 ==> (merged matches Ok(w) && paths_view(w@)
            == paths_view(v@))),
        collected matches Ok(v) ==> (v@.len() == 0 ==> merged matches Err(ScanError::NoPdfFound)),
        collected is Err ==> merged is Err && !(merged matches Err(ScanError::NoPdfFound)),
{
    broadcast use vstd::seq_lib::group_to_multiset_ensures;

    let c = chosen_paths(entries, dir, texts(includes), texts(excludes), seq![output]);
    match collected {
        Ok(v) => {
            assert(paths_view(v@).len() == v@.len());
            assert(c.to_multiset().len() == c.len());
            match merged {
                Ok(w) => {
                    lemma_sorted_unique(paths_view(w@), paths_view(v@));
                },
                Err(e) => {
                    assert(paths_view(v@).to_multiset().len() == v@.len());
                },
            }
        },
        Err(e) => {
            if merged matches Err(ScanError::NoPdfFound) {
            }
        },
    }
}

/// Why a merge failed.
#[derive(Debug)]
pub enum MergeError {
    /// The page-range specification is malformed.
    BadPages(PageSpecError),
    /// Object numbers would run past `u32::MAX`.
    IdOverflow,
    /// The page tree could not be written.
    Assemble(AssembleError),
}

/// The zero-based page indices that `pages_spec` selects in a document of
/// `total` pages; `None` (no specification) selects every page.
pub open spec fn selection(pages_spec: Option<Seq<char>>, total: nat) -> Option<Seq<usize>> {
    match pages_spec {
        None => None,
        Some(s) => Some(expanded(spec_ranges(s), total)),
    }
}

/// Which positions of an input document's pages are merged.
pub open spec fn merge_filter(pages_spec: Option<&str>, total: nat) -> spec_fn(int) -> bool {
    index_filter(selection(spec_text(pages_spec), total))
}

/// The text of an optional page specification.
pub open spec fn spec_text(pages_spec: Option<&str>) -> Option<Seq<char>> {
    match pages_spec {
        Some(s) => Some(s@),
        None => None,
    }
}

/// The pages a merge keeps of `pdf` when its objects are renumbered from
/// `start`: those that `pages_spec` selects, in page order.
pub open spec fn kept_of(pdf: Document, start: u32, pages_spec: Option<Seq<char>>) -> Seq<(u32, u16)> {
    kept_by_position(
        renumbered_pages(pdf, start),
        index_filter(selection(pages_spec, doc_pages(pdf).len())),
    )
}

/// What a successful `add_document(pdf, pages_spec)` makes of `before`:
/// `pdf` renumbered after the objects gathered so far and taken over, and
/// the pages the specification selects in it listed after those before.
pub open spec fn document_added(
    before: MergeBuilder,
    pdf: Document,
    pages_spec: Option<Seq<char>>,
    after: MergeBuilder,
) -> bool {
    &&& (pages_spec matches Some(s) ==> spec_well_formed(s))
    &&& before.max_id() + 1 + doc_object_count(pdf) <= u32::MAX
    &&& after.max_id() <= before.max_id() + doc_object_count(pdf)
    &&& after.kept_pages() == before.kept_pages() + kept_of(
        pdf,
        (before.max_id() + 1) as u32,
        pages_spec,
    )
    &&& exists|moved: Document|
        #[trigger] renumbered_from(pdf, moved, (before.max_id() + 1) as u32) && absorbed(
            before.document(),
            moved,
            after.document(),
        )
}

/// The pages that merging `docs` in order lists: those kept of the first
/// document, then those kept of the second, and so on, document `j` being
/// renumbered from `starts(j)`.
pub open spec fn kept_in_order(
    docs: Seq<Document>,
    starts: spec_fn(int) -> u32,
    pages_spec: Option<Seq<char>>,
) -> Seq<(u32, u16)>
    decreases docs.len(),
{
    if docs.len() == 0 {
        Seq::empty()
    } else {
        kept_in_order(docs.drop_last(), starts, pages_spec) + kept_of(
            docs.last(),
            starts(docs.len() - 1),
            pages_spec,
        )
    }
}

/// Adding documents one after the other to an empty merge lists the
/// selected pages of the first document, then those of the second, and so
/// on, each document renumbered after every object before it (the page
/// tree that `finish` writes lists them as its `Kids`).
pub proof fn lemma_merge_lists_inputs_in_order(
    states: Seq<MergeBuilder>,
    docs: Seq<Document>,
    pages_spec: Option<Seq<char>>,
)
    requires
        states.len() == docs.len() + 1,
        states[0].kept_pages() == Seq::<(u32, u16)>::empty(),
        forall|j: int|
            0 <= j < docs.len() ==> #[trigger] document_added(states[j], docs[j], pages_spec, states[j + 1]),
    ensures
        states.last().kept_pages() == kept_in_order(
            docs,
            |j: int| (states[j].max_id() + 1) as u32,
            pages_spec,
        ),
        forall|j: int| 0 <= j < docs.len() ==> (#[trigger] states[j]).max_id() <= states[j + 1].max_id(),
    decreases docs.len(),
{
    let starts = |j: int| (states[j].max_id() + 1) as u32;
    if docs.len() > 0 {
        let n = docs.len() - 1;
        let s0 = states.drop_last();
        let d0 = docs.drop_last();
        assert forall|j: int| 0 <= j < d0.len() implies #[trigger] document_added(
            s0[j],
            d0[j],
            pages_spec,
            s0[j + 1],
        ) by {
            assert(s0[j] == states[j] && s0[j + 1] == states[j + 1] && d0[j] == docs[j]);
            assert(document_added(states[j], docs[j], pages_spec, states[j + 1]));
        }
        lemma_merge_lists_inputs_in_order(s0, d0, pages_spec);
        assert(s0.last() == states[n]);
        let starts0 = |j: int| (s0[j].max_id() + 1) as u32;
        assert(kept_in_order(d0, starts0, pages_spec) == kept_in_order(d0, starts, pages_spec)) by {
            lemma_kept_in_order_prefix(d0, starts0, starts, pages_spec);
        }
        assert(document_added(states[n], docs[n], pages_spec, states[n + 1]));
        assert(docs.drop_last() == d0);
        assert forall|j: int| 0 <= j < docs.len() implies (#[trigger] states[j]).max_id() <= states[j
            + 1].max_id() by {
            assert(document_added(states[j], docs[j], pages_spec, states[j + 1]));
            let moved = choose|moved: Document|
                #[trigger] renumbered_from(docs[j], moved, (states[j].max_id() + 1) as u32) && absorbed(
                    states[j].document(),
                    moved,
                    states[j + 1].document(),
                );
        }
    }
}

/// `kept_in_order` reads the starts only at the positions of the documents.
proof fn lemma_kept_in_order_prefix(
    docs: Seq<Document>,
    s1: spec_fn(int) -> u32,
    s2: spec_fn(int) -> u32,
    pages_spec: Option<Seq<char>>,
)
    requires
        forall|j: int| 0 <= j < docs.len() ==> #[trigger] s1(j) == s2(j),
    ensures
        kept_in_order(docs, s1, pages_spec) == kept_in_order(docs, s2, pages_spec),
    decreases docs.len(),
{
    if docs.len() > 0 {
        lemma_kept_in_order_prefix(docs.drop_last(), s1, s2, pages_spec);
        assert(s1(docs.len() - 1) == s2(docs.len() - 1));
    }
}

/// Positions kept by two filters that agree on every position of `pages`
/// are the same.
proof fn lemma_kept_by_equal_filters(
    pages: Seq<(u32, u16)>,
    f1: spec_fn(int) -> bool,
    f2: spec_fn(int) -> bool,
)
    requires
        forall|i: int| 0 <= i < pages.len() ==> #[trigger] f1(i) == f2(i),
    ensures
        kept_by_position(pages, f1) == kept_by_position(pages, f2),
    decreases pages.len(),
{
    if pages.len() > 0 {
        lemma_kept_by_equal_filters(pages.drop_last(), f1, f2);
        assert(f1(pages.len() - 1) == f2(pages.len() - 1));
    }
}

/// The order and the repetition of the ranges of a page specification do
/// not matter: two specifications that select the same page indices of a
/// document of `total` pages make a merge keep the same pages of it, in
/// document order.
pub proof fn lemma_same_selection_same_pages(
    s1: Seq<char>,
    s2: Seq<char>,
    total: usize,
    pages: Seq<(u32, u16)>,
)
    requires
        forall|i: usize|
            i < total ==> (#[trigger] expanded(spec_ranges(s1), total as nat).contains(i)
                <==> expanded(spec_ranges(s2), total as nat).contains(i)),
    ensures
        kept_by_position(pages, index_filter(selection(Some(s1), total as nat))) == kept_by_position(
            pages,
            index_filter(selection(Some(s2), total as nat)),
        ),
{
    let f1 = index_filter(selection(Some(s1), total as nat));
    let f2 = index_filter(selection(Some(s2), total as nat));
    assert forall|i: int| 0 <= i < pages.len() implies #[trigger] f1(i) == f2(i) by {
        let u = i as usize;
        let e1 = expanded(spec_ranges(s1), total as nat);
        let e2 = expanded(spec_ranges(s2), total as nat);
        if u >= total {
            lemma_selected_iff_covered(spec_ranges(s1), total, u);
            lemma_selected_iff_covered(spec_ranges(s2), total, u);
            if e1.contains(u) {
                let j = choose|j: int|
                    0 <= j < spec_ranges(s1).len() && first_page(#[trigger] spec_ranges(s1)[j]) <= u
                        + 1 <= last_page(spec_ranges(s1)[j], total as nat);
            }
            if e2.contains(u) {
                let j = choose|j: int|
                    0 <= j < spec_ranges(s2).len() && first_page(#[trigger] spec_ranges(s2)[j]) <= u
                        + 1 <= last_page(spec_ranges(s2)[j], total as nat);
            }
        } else {
            assert(e1.contains(u) <==> e2.contains(u));
        }
    }
    lemma_kept_by_equal_filters(pages, f1, f2);
}

/// A merged document under construction: the objects gathered so far, and
/// the ids of the pages it will list, in order.
pub struct MergeBuilder {
    doc: Document,
    kept: Vec<(u32, u16)>,
}

impl MergeBuilder {
    /// The pages the merged document will list, in order.
    pub closed spec fn kept_pages(&self) -> Seq<(u32, u16)> {
        self.kept@
    }

    /// The document gathered so far.
    pub closed spec fn document(&self) -> Document {
        self.doc
    }

    /// The highest object number used so far.
    pub closed spec fn max_id(&self) -> u32 {
        doc_max_id(self.doc)
    }

    /// The document is a PDF 1.5 document and no gathered object is
    /// numbered above `max_id`, so the page tree goes to fresh numbers.
    pub closed spec fn wf(&self) -> bool {
        &&& ids_at_most_max(self.doc)
        &&& doc_version(self.doc) == "1.5"@
    }

    /// An empty merge (a PDF 1.5 document with no objects).
    pub fn new() -> (r: MergeBuilder)
        ensures
            r.wf(),
            r.kept_pages() == Seq::<(u32, u16)>::empty(),
            r.max_id() == 0,
            doc_object_ids(r.document()).is_empty(),
            doc_dicts(r.document()) == no_dictionaries(),
            doc_streams(r.document()) == no_streams(),
            doc_version(r.document()) == "1.5"@,
            doc_trailer(r.document()) == no_entries(),
    {
        MergeBuilder { doc: new_document("1.5"), kept: Vec::new() }
    }

    /// Adds one input document: its objects are renumbered after those
    /// gathered so far and taken over, and the pages that `pages_spec`
    /// selects in it are appended, in page order, to the pages to list.
    pub fn add_document(&mut self, pdf: Document, pages_spec: Option<&str>) -> (r: Result<
        (),
        MergeError,
    >)
        requires
            old(self).wf(),
        ensures
            final(self).wf(),
            match r {
                Ok(()) => document_added(*old(self), pdf, spec_text(pages_spec), *final(self)),
                Err(MergeError::BadPages(e)) => {
                    &&& pages_spec matches Some(s) && !spec_well_formed(s@)
                        && e.item < comma_pieces(s@).len() && item_of(comma_pieces(s@)[e.item as int]) is None
                    &&& *final(self) == *old(self)
                },
                Err(MergeError::IdOverflow) => {
                    &&& (pages_spec matches Some(s) ==> spec_well_formed(s@))
                    &&& old(self).max_id() + 1 + doc_object_count(pdf) > u32::MAX
                    &&& *final(self) == *old(self)
                },
                Err(MergeError::Assemble(_)) => false,
            },
    {
        let ghost pdf_in = pdf;
        let ghost doc_in = self.doc;
        let mut pdf = pdf;
        let total = page_ids(&pdf).len();
        let indices: Option<Vec<usize>> = match pages_spec {
            Some(spec_text) => match parse_spec(spec_text) {
                Ok(ranges) => Some(expand_to_indexes(&ranges, total)),
                Err(e) => {
                    return Err(MergeError::BadPages(e));
                },
            },
            None => None,
        };
        let current = max_object_id(&self.doc);
        let count = object_count(&pdf);
        if count >= 4294967295usize || current as u64 + 1 + count as u64 > 4294967295u64 {
            return Err(MergeError::IdOverflow);
        }
        let offset = current + 1;
        renumber_objects(&mut pdf, offset);
        let new_max = max_object_id(&pdf);
        assert(new_max <= current + count);
        set_max_object_id(&mut self.doc, new_max);
        let pages = page_ids(&pdf);
        assert(match &indices {
            Some(ix) => Some(ix@),
            None => None,
        } == selection(
            match pages_spec {
                Some(s) => Some(s@),
                None => None,
            },
            doc_pages(pdf_in).len(),
        ));
        let selected = select_pages(
            &pages,
            match &indices {
                Some(ix) => Some(ix),
                None => None,
            },
        );
        let ghost before = self.kept@;
        let ghost doc_mid = self.doc;
        let mut k: usize = 0;
        while k < selected.len()
            invariant
                k <= selected@.len(),
                self.kept@ == before + selected@.take(k as int),
                self.doc == doc_mid,
            decreases selected@.len() - k,
        {
            self.kept.push(selected[k]);
            assert(selected@.take(k + 1) =~= selected@.take(k as int).push(selected@[k as int]));
            k = k + 1;
        }
        assert(selected@.take(k as int) =~= selected@);
        assert(selected@ == kept_by_position(pages@, merge_filter(pages_spec, doc_pages(pdf_in).len())));
        let ghost moved = pdf;
        move_objects(&mut self.doc, pdf);
        proof {
            assert(renumbered_from(pdf_in, moved, offset));
            assert(absorbed(doc_in, moved, self.doc));
            assert forall|id: (u32, u16)| #[trigger] doc_object_ids(self.doc).contains(id) implies id.0
                <= doc_max_id(self.doc) by {
                if doc_object_ids(doc_in).contains(id) {
                    assert(id.0 <= doc_max_id(doc_in));
                }
            }
            assert forall|id: (u32, u16)| #[trigger] doc_dicts(self.doc).contains_key(id) implies doc_object_ids(
                self.doc,
            ).contains(id) by {
                if doc_dicts(moved).contains_key(id) {
                    assert(doc_object_ids(moved).contains(id));
                } else {
                    assert(doc_dicts(doc_in).contains_key(id));
                }
            }
        }
        Ok(())
    }

    /// Writes the page tree over the gathered pages and hands out the
    /// merged document (see `finish_document`): its `Pages` node and
    /// catalog take the next two object numbers.
    pub fn finish(self) -> (r: Result<Document, MergeError>)
        requires
            self.wf(),
        ensures
            match r {
                Ok(d) => {
                    &&& self.max_id() + 2 <= u32::MAX
                    &&& all_dictionaries(self.document(), self.kept_pages())
                    &&& tree_written(self.document(), d, self.kept_pages(), next_tree(self.document()))
                    &&& doc_version(d) == "1.5"@
                    &&& page_tree_linked(d, self.kept_pages(), next_tree(self.document()))
                },
                Err(MergeError::Assemble(AssembleError::IdOverflow)) => self.max_id() == u32::MAX || (
                self.max_id() + 1 == u32::MAX && all_dictionaries(self.document(), self.kept_pages())),
                Err(MergeError::Assemble(AssembleError::PageNotFound(id))) => {
                    &&& self.max_id() < u32::MAX
                    &&& self.kept_pages().contains(id)
                    &&& !doc_object_ids(self.document()).contains(id)
                },
                Err(MergeError::Assemble(AssembleError::PageNotDictionary(id))) => {
                    &&& self.max_id() < u32::MAX
                    &&& self.kept_pages().contains(id)
                    &&& doc_object_ids(self.document()).contains(id)
                    &&& !doc_dictionary_ids(self.document()).contains(id)
                },
                Err(_) => false,
            },
    {
        let ghost before = self.doc;
        let mut doc = self.doc;
        match finish_document(&mut doc, &self.kept) {
            Ok(t) => {
                proof {
                    lemma_written_tree_is_linked(before, doc, self.kept@, t);
                }
                Ok(doc)
            },
            Err(e) => Err(MergeError::Assemble(e)),
        }
    }
}

} // verus!
