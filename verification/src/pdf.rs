//! The `lopdf` documents that merging and splitting assemble: the calls
//! into `lopdf` that the assembly makes, and the page tree (the `Pages`
//! node, the catalog and the trailer) written over a list of pages.

use vstd::prelude::*;
use lopdf::{Dictionary, Document, Object};

verus! {

#[verifier::external_type_specification]
#[verifier::external_body]
pub struct ExDocument(lopdf::Document);

#[verifier::external_type_specification]
#[verifier::external_body]
pub struct ExDictionary(lopdf::Dictionary);

/// What the contracts see of a value stored in a PDF dictionary: a name
/// (by its text), an integer, a reference to an object, an array of
/// references, or anything else.
pub enum EntryValue {
    Name(Seq<char>),
    Integer(int),
    Reference((u32, u16)),
    References(Seq<(u32, u16)>),
    Other,
}

/// A value to store in a PDF dictionary.
pub enum PdfValue<'a> {
    /// A name object with this text.
    Name(&'a str),
    /// An integer object.
    Integer(i64),
    /// A reference to the object with this id.
    Reference((u32, u16)),
    /// An array of references, one per id, in order.
    References(&'a Vec<(u32, u16)>),
}

/// What a value to store is, as the contracts see it.
pub open spec fn value_view(v: PdfValue) -> EntryValue {
    match v {
        PdfValue::Name(s) => EntryValue::Name(s@),
        PdfValue::Integer(i) => EntryValue::Integer(i as int),
        PdfValue::Reference(id) => EntryValue::Reference(id),
        PdfValue::References(ids) => EntryValue::References(ids@),
    }
}

/// The page object ids of a document, in page order (what
/// `Document::get_pages` lists under page numbers 1, 2, ...).
pub uninterp spec fn doc_pages(d: Document) -> Seq<(u32, u16)>;

/// The page ids, in page order, of `d` once `Document::renumber_objects_with`
/// has renumbered its objects from `start`.
pub uninterp spec fn renumbered_pages(d: Document, start: u32) -> Seq<(u32, u16)>;

/// The `max_id` field of a document: the highest object number handed out.
pub uninterp spec fn doc_max_id(d: Document) -> u32;

/// The ids of the objects a document holds (the keys of `objects`).
pub uninterp spec fn doc_object_ids(d: Document) -> Set<(u32, u16)>;

/// The number of objects a document holds (`objects.len()`).
pub uninterp spec fn doc_object_count(d: Document) -> nat;

/// The entries of a dictionary whose keys are text, by key.
pub uninterp spec fn dict_entries(d: Dictionary) -> Map<Seq<char>, EntryValue>;

/// The objects of a document that are dictionaries, by id, each given by
/// its entries.
pub uninterp spec fn doc_dicts(d: Document) -> Map<(u32, u16), Map<Seq<char>, EntryValue>>;

/// The entries of a document's trailer.
pub uninterp spec fn doc_trailer(d: Document) -> Map<Seq<char>, EntryValue>;

/// The PDF version a document is written with (its `version` field).
pub uninterp spec fn doc_version(d: Document) -> Seq<char>;

/// The stream objects of a document, by id.
pub uninterp spec fn doc_streams(d: Document) -> Map<(u32, u16), StreamView>;

/// What zlib compression at level 9 (as `Stream::compress` runs it) makes
/// of `content`; `None` when the encoder fails.
pub uninterp spec fn zlib_level9(content: Seq<u8>) -> Option<Seq<u8>>;

/// What the contracts see of a stream object: the entries of its
/// dictionary, its content, and whether it may be compressed.
pub struct StreamView {
    pub entries: Map<Seq<char>, EntryValue>,
    pub content: Seq<u8>,
    pub allows_compression: bool,
}

/// What `Stream::compress` makes of the stream `s`, `zipped` being the
/// level-9 zlib compression of its content: a stream that may be
/// compressed and has no `Filter` takes the compressed content, with
/// `Filter` `FlateDecode` and the new `Length`, when that saves more than
/// 19 bytes; otherwise it stays as it is.
pub open spec fn stream_compressed(s: StreamView, zipped: Option<Seq<u8>>) -> StreamView {
    match zipped {
        Some(c) => if s.allows_compression && !s.entries.contains_key("Filter"@) && c.len() + 19
            < s.content.len() {
            StreamView {
                entries: s.entries.insert("Filter"@, EntryValue::Name("FlateDecode"@)).insert(
                    "Length"@,
                    EntryValue::Integer((c.len() as i64) as int),
                ),
                content: c,
                allows_compression: s.allows_compression,
            }
        } else {
            s
        },
        None => s,
    }
}

/// Every stream of `streams` compressed as `Document::compress` does it.
pub open spec fn all_compressed(streams: Map<(u32, u16), StreamView>) -> Map<(u32, u16), StreamView> {
    streams.map_values(|v: StreamView| stream_compressed(v, zlib_level9(v.content)))
}

/// A document with no stream object.
pub open spec fn no_streams() -> Map<(u32, u16), StreamView> {
    Map::empty()
}

/// The ids of the objects of a document that are dictionaries.
pub open spec fn doc_dictionary_ids(d: Document) -> Set<(u32, u16)> {
    doc_dicts(d).dom()
}

/// Some object of `d` has the number `n`.
pub open spec fn number_used(d: Document, n: u32) -> bool {
    exists|g: u16| #[trigger] doc_object_ids(d).contains((n, g))
}

/// A dictionary with no entry.
pub open spec fn no_entries() -> Map<Seq<char>, EntryValue> {
    Map::empty()
}

/// A document with no dictionary object.
pub open spec fn no_dictionaries() -> Map<(u32, u16), Map<Seq<char>, EntryValue>> {
    Map::empty()
}

/// `Document::with_version`: a document of that version with no objects,
/// an empty trailer (hence no pages) and `max_id` zero, as `Document::new`
/// makes it.
#[verifier::external_body]
pub(crate) fn new_document(version: &str) -> (r: Document)
    ensures
        doc_version(r) == version@,
        doc_max_id(r) == 0,
        doc_object_count(r) == 0,
        doc_object_ids(r) == Set::<(u32, u16)>::empty(),
        doc_dicts(r) == no_dictionaries(),
        doc_streams(r) == no_streams(),
        doc_trailer(r) == no_entries(),
        doc_pages(r) == Seq::<(u32, u16)>::empty(),
{
    Document::with_version(version)
}

/// `Document::get_pages`, its page ids taken in page-number order.
#[verifier::external_body]
pub(crate) fn page_ids(doc: &Document) -> (r: Vec<(u32, u16)>)
    ensures
        r@ == doc_pages(*doc),
{
    doc.get_pages().into_values().collect()
}

/// The number of objects: `objects.len()`.
#[verifier::external_body]
pub(crate) fn object_count(doc: &Document) -> (r: usize)
    ensures
        r as nat == doc_object_count(*doc),
{
    doc.objects.len()
}

/// Reads the `max_id` field.
#[verifier::external_body]
pub(crate) fn max_object_id(doc: &Document) -> (r: u32)
    ensures
        r == doc_max_id(*doc),
{
    doc.max_id
}

/// Writes the `max_id` field; objects, trailer and pages are untouched.
#[verifier::external_body]
pub(crate) fn set_max_object_id(doc: &mut Document, value: u32)
    ensures
        doc_max_id(*final(doc)) == value,
        doc_object_count(*final(doc)) == doc_object_count(*old(doc)),
        doc_object_ids(*final(doc)) == doc_object_ids(*old(doc)),
        doc_dicts(*final(doc)) == doc_dicts(*old(doc)),
        doc_trailer(*final(doc)) == doc_trailer(*old(doc)),
        doc_version(*final(doc)) == doc_version(*old(doc)),
        doc_streams(*final(doc)) == doc_streams(*old(doc)),
        doc_pages(*final(doc)) == doc_pages(*old(doc)),
{
    doc.max_id = value;
}

/// `Document::renumber_objects_with(start)`: the objects (pages first put
/// in page order) get the numbers `start, start + 1, ...` in id order, each
/// keeping its generation, and `max_id` becomes the last number used. No
/// object is added; the count can only drop where reordering pages moves
/// two objects onto one id. The counter of numbers is a `u32`, hence the
/// bound on `start`. Which ids the pages get is named, not stated, and so
/// are the entries of the renumbered dictionaries.
#[verifier::external_body]
pub(crate) fn renumber_objects(doc: &mut Document, start: u32)
    requires
        1 <= start,
        start + doc_object_count(*old(doc)) <= u32::MAX,
    ensures
        doc_pages(*final(doc)) == renumbered_pages(*old(doc), start),
        doc_max_id(*final(doc)) + 1 == start + doc_object_count(*final(doc)),
        doc_object_count(*final(doc)) <= doc_object_count(*old(doc)),
        forall|id: (u32, u16)|
            #[trigger] doc_object_ids(*final(doc)).contains(id) ==> start <= id.0 <= doc_max_id(
                *final(doc),
            ),
        forall|id: (u32, u16)|
            #[trigger] doc_dicts(*final(doc)).contains_key(id) ==> doc_object_ids(*final(doc)).contains(id),
        forall|n: u32| start <= n <= doc_max_id(*final(doc)) ==> #[trigger] number_used(*final(doc), n),
{
    doc.renumber_objects_with(start);
}

/// Moves every object of `from` into `into` (`objects.extend`), an object
/// of `from` replacing one of `into` with the same id. The trailer and
/// `max_id` of `into` are untouched.
#[verifier::external_body]
pub(crate) fn move_objects(into: &mut Document, from: Document)
    ensures
        doc_max_id(*final(into)) == doc_max_id(*old(into)),
        doc_object_ids(*final(into)) == doc_object_ids(*old(into)).union(doc_object_ids(from)),
        doc_dicts(*final(into)) == doc_dicts(*old(into)).remove_keys(doc_object_ids(from)).union_prefer_right(
            doc_dicts(from),
        ),
        doc_trailer(*final(into)) == doc_trailer(*old(into)),
        doc_version(*final(into)) == doc_version(*old(into)),
        doc_streams(*final(into)) == doc_streams(*old(into)).remove_keys(doc_object_ids(from)).union_prefer_right(
            doc_streams(from),
        ),
{
    into.objects.extend(from.objects);
}

/// `Document::try_new_object_id`: the next object number, with generation
/// zero, unless `max_id` is already `u32::MAX`. No object is added.
#[verifier::external_body]
pub(crate) fn next_object_id(doc: &mut Document) -> (r: Option<(u32, u16)>)
    ensures
        doc_max_id(*old(doc)) < u32::MAX ==> r == Some(((doc_max_id(*old(doc)) + 1) as u32, 0u16))
            && doc_max_id(*final(doc)) == doc_max_id(*old(doc)) + 1,
        doc_max_id(*old(doc)) == u32::MAX ==> r is None && doc_max_id(*final(doc)) == doc_max_id(
            *old(doc),
        ),
        doc_object_count(*final(doc)) == doc_object_count(*old(doc)),
        doc_pages(*final(doc)) == doc_pages(*old(doc)),
        doc_object_ids(*final(doc)) == doc_object_ids(*old(doc)),
        doc_dicts(*final(doc)) == doc_dicts(*old(doc)),
        doc_trailer(*final(doc)) == doc_trailer(*old(doc)),
        doc_version(*final(doc)) == doc_version(*old(doc)),
        doc_streams(*final(doc)) == doc_streams(*old(doc)),
{
    doc.try_new_object_id().ok()
}

/// Why an entry could not be set in an object.
#[derive(Clone, Copy, Debug, PartialEq, Eq)]
pub enum EntryError {
    /// No object has this id.
    Missing,
    /// The object is not a dictionary.
    NotDictionary,
}

/// Sets `key` to a reference to `target` in the dictionary object `id`
/// (`objects.get_mut`, then `Object::as_dict_mut`, then `Dictionary::set`);
/// says which step failed, and then changes nothing.
#[verifier::external_body]
pub(crate) fn set_reference_entry(doc: &mut Document, id: (u32, u16), key: &str, target: (u32, u16)) -> (r:
    Result<(), EntryError>)
    ensures
        r == Err::<(), EntryError>(EntryError::Missing) <==> !doc_object_ids(*old(doc)).contains(id),
        r == Err::<(), EntryError>(EntryError::NotDictionary) <==> doc_object_ids(*old(doc)).contains(id)
            && !doc_dicts(*old(doc)).contains_key(id),
        r is Ok ==> doc_dicts(*final(doc)) == doc_dicts(*old(doc)).insert(
            id,
            doc_dicts(*old(doc))[id].insert(key@, EntryValue::Reference(target)),
        ),
        r is Err ==> doc_dicts(*final(doc)) == doc_dicts(*old(doc)),
        doc_object_ids(*final(doc)) == doc_object_ids(*old(doc)),
        doc_trailer(*final(doc)) == doc_trailer(*old(doc)),
        doc_version(*final(doc)) == doc_version(*old(doc)),
        doc_streams(*final(doc)) == doc_streams(*old(doc)),
        doc_max_id(*final(doc)) == doc_max_id(*old(doc)),
        doc_object_count(*final(doc)) == doc_object_count(*old(doc)),
{
    match doc.objects.get_mut(&id) {
        None => Err(EntryError::Missing),
        Some(object) => match object.as_dict_mut() {
            Ok(dict) => {
                dict.set(key, Object::Reference(target));
                Ok(())
            },
            Err(_) => Err(EntryError::NotDictionary),
        },
    }
}

/// `Dictionary::new`: no entry.
#[verifier::external_body]
pub(crate) fn new_dictionary() -> (r: Dictionary)
    ensures
        dict_entries(r) == no_entries(),
{
    Dictionary::new()
}

/// `Dictionary::set`: `key` now holds `value` (a name object, an
/// `Object::Integer`, an `Object::Reference`, or an `Object::Array` of
/// references), the other entries stay.
#[verifier::external_body]
pub(crate) fn dictionary_set(dict: &mut Dictionary, key: &str, value: PdfValue)
    ensures
        dict_entries(*final(dict)) == dict_entries(*old(dict)).insert(key@, value_view(value)),
{
    let object = match value {
        PdfValue::Name(name) => Object::from(name),
        PdfValue::Integer(i) => Object::Integer(i),
        PdfValue::Reference(id) => Object::Reference(id),
        PdfValue::References(ids) => Object::Array(ids.iter().map(|id| Object::Reference(*id)).collect()),
    };
    dict.set(key, object);
}

/// Stores `dict` as the dictionary object `id` (`objects.insert`), replacing
/// any object with that id; the trailer, the version and `max_id` are
/// untouched.
#[verifier::external_body]
pub(crate) fn insert_dictionary(doc: &mut Document, id: (u32, u16), dict: Dictionary)
    ensures
        doc_object_ids(*final(doc)) == doc_object_ids(*old(doc)).insert(id),
        doc_dicts(*final(doc)) == doc_dicts(*old(doc)).insert(id, dict_entries(dict)),
        doc_trailer(*final(doc)) == doc_trailer(*old(doc)),
        doc_version(*final(doc)) == doc_version(*old(doc)),
        doc_streams(*final(doc)) == doc_streams(*old(doc)).remove(id),
        doc_max_id(*final(doc)) == doc_max_id(*old(doc)),
{
    doc.objects.insert(id, Object::Dictionary(dict));
}

/// Replaces the trailer; objects and `max_id` are untouched.
#[verifier::external_body]
pub(crate) fn set_trailer(doc: &mut Document, trailer: Dictionary)
    ensures
        doc_trailer(*final(doc)) == dict_entries(trailer),
        doc_version(*final(doc)) == doc_version(*old(doc)),
        doc_streams(*final(doc)) == doc_streams(*old(doc)),
        doc_max_id(*final(doc)) == doc_max_id(*old(doc)),
        doc_object_count(*final(doc)) == doc_object_count(*old(doc)),
        doc_object_ids(*final(doc)) == doc_object_ids(*old(doc)),
        doc_dicts(*final(doc)) == doc_dicts(*old(doc)),
{
    doc.trailer = trailer;
}

/// `Document::compress`: runs `Stream::compress` on every stream object,
/// ignoring its errors (see `stream_compressed`); no object is added or
/// removed, and dictionaries (which are not streams), the trailer, the
/// version and `max_id` are untouched.
#[verifier::external_body]
pub(crate) fn compress_document(doc: &mut Document)
    ensures
        doc_max_id(*final(doc)) == doc_max_id(*old(doc)),
        doc_object_count(*final(doc)) == doc_object_count(*old(doc)),
        doc_object_ids(*final(doc)) == doc_object_ids(*old(doc)),
        doc_dicts(*final(doc)) == doc_dicts(*old(doc)),
        doc_trailer(*final(doc)) == doc_trailer(*old(doc)),
        doc_version(*final(doc)) == doc_version(*old(doc)),
        doc_streams(*final(doc)).dom() == doc_streams(*old(doc)).dom(),
        forall|id: (u32, u16)|
            #[trigger] doc_streams(*final(doc)).contains_key(id) ==> doc_streams(*final(doc))[id]
                == stream_compressed(doc_streams(*old(doc))[id], zlib_level9(doc_streams(*old(doc))[id].content)),
{
    doc.compress();
}


/// The number of pages of a document.
pub fn page_count(doc: &Document) -> (r: usize)
    ensures
        r == doc_pages(*doc).len(),
{
    page_ids(doc).len()
}

/// The pages of `pages` whose zero-based position satisfies `keep`, in order.
pub open spec fn kept_by_position(pages: Seq<(u32, u16)>, keep: spec_fn(int) -> bool) -> Seq<
    (u32, u16),
>
    decreases pages.len(),
{
    if pages.len() == 0 {
        Seq::empty()
    } else {
        let rest = kept_by_position(pages.drop_last(), keep);
        if keep(pages.len() - 1) {
            rest.push(pages.last())
        } else {
            rest
        }
    }
}

/// Which positions a list of selected indices keeps; `None` keeps all.
pub open spec fn index_filter(indices: Option<Seq<usize>>) -> spec_fn(int) -> bool {
    |i: int|
        match indices {
            None => true,
            Some(ix) => ix.contains(i as usize),
        }
}

/// Which positions fall in pages `start..=end` (one-based).
pub open spec fn range_filter(start: int, end: int) -> spec_fn(int) -> bool {
    |i: int| start <= i + 1 <= end
}

/// Keeping by position keeps the pages at the kept positions, in page
/// order: keeping every position keeps the whole list, keeping none keeps
/// nothing, and keeping pages `start..=end` (one-based) keeps that stretch
/// of the list, cut at its last page (nothing when the stretch is empty or
/// starts past the end).
pub proof fn lemma_kept_pages(pages: Seq<(u32, u16)>, start: int, end: int)
    requires
        1 <= start,
        0 <= end,
    ensures
        kept_by_position(pages, |i: int| true) == pages,
        kept_by_position(pages, |i: int| false) == Seq::<(u32, u16)>::empty(),
        kept_by_position(pages, range_filter(start, end)) == pages.subrange(
            if start - 1 < (if end < pages.len() { end } else { pages.len() as int }) {
                start - 1
            } else {
                if end < pages.len() { end } else { pages.len() as int }
            },
            if end < pages.len() { end } else { pages.len() as int },
        ),
    decreases pages.len(),
{
    if pages.len() > 0 {
        let n = pages.len() as int;
        let init = pages.drop_last();
        lemma_kept_pages(init, start, end);
        assert(init.push(pages.last()) =~= pages);
        let hi = if end < n { end } else { n };
        let lo = if start - 1 < hi { start - 1 } else { hi };
        let hi0 = if end < n - 1 { end } else { n - 1 };
        let lo0 = if start - 1 < hi0 { start - 1 } else { hi0 };
        if start <= n && n <= end {
            assert(lo == start - 1 && hi == n && lo0 == start - 1 && hi0 == n - 1);
            assert(pages.subrange(lo, hi) =~= init.subrange(lo0, hi0).push(pages.last()));
        } else {
            assert(pages.subrange(lo, hi) =~= init.subrange(lo0, hi0));
        }
    }
}

/// Position `i` is listed in `indices`.
pub open spec fn position_listed(indices: Seq<usize>, i: int) -> bool {
    indices.contains(i as usize)
}

/// Keeping the positions listed in `indices` keeps the pages at those
/// positions, in page order, each once; a page is kept exactly when its
/// position is listed; no list keeps every page.
pub proof fn lemma_kept_listed(pages: Seq<(u32, u16)>, indices: Seq<usize>)
    ensures
        kept_by_position(pages, index_filter(None)) == pages,
        (forall|i: int| 0 <= i < pages.len() ==> #[trigger] position_listed(indices, i)) ==> kept_by_position(
            pages,
            index_filter(Some(indices)),
        ) == pages,
        (forall|i: int| 0 <= i < pages.len() ==> !#[trigger] position_listed(indices, i)) ==> kept_by_position(
            pages,
            index_filter(Some(indices)),
        ) == Seq::<(u32, u16)>::empty(),
    decreases pages.len(),
{
    if pages.len() > 0 {
        lemma_kept_listed(pages.drop_last(), indices);
        let n = pages.len() - 1;
        if forall|i: int| 0 <= i < pages.len() ==> #[trigger] position_listed(indices, i) {
            assert(position_listed(indices, n));
            assert(forall|i: int| 0 <= i < n ==> #[trigger] position_listed(indices, i));
        }
        if forall|i: int| 0 <= i < pages.len() ==> !#[trigger] position_listed(indices, i) {
            assert(!position_listed(indices, n));
            assert(forall|i: int| 0 <= i < n ==> !#[trigger] position_listed(indices, i));
        }
        assert(pages.drop_last().push(pages.last()) =~= pages);
    }
}

fn index_listed(indices: &Vec<usize>, i: usize) -> (r: bool)
    ensures
        r == indices@.contains(i),
{
    let mut k: usize = 0;
    while k < indices.len()
        invariant
            k <= indices@.len(),
            forall|j: int| 0 <= j < k ==> indices@[j] != i,
        decreases indices@.len() - k,
    {
        if indices[k] == i {
            return true;
        }
        k = k + 1;
    }
    false
}

/// The pages whose zero-based position is listed in `indices`, in page
/// order; all pages when there is no list.
pub fn select_pages(pages: &Vec<(u32, u16)>, indices: Option<&Vec<usize>>) -> (r: Vec<(u32, u16)>)
    ensures
        r@ == kept_by_position(
            pages@,
            index_filter(
                match indices {
                    Some(ix) => Some(ix@),
                    None => None,
                },
            ),
        ),
{
    let ghost keep = index_filter(
        match indices {
            Some(ix) => Some(ix@),
            None => None,
        },
    );
    let mut out: Vec<(u32, u16)> = Vec::new();
    let mut i: usize = 0;
    assert(pages@.take(0) =~= Seq::<(u32, u16)>::empty());
    while i < pages.len()
        invariant
            i <= pages@.len(),
            keep == index_filter(
                match indices {
                    Some(ix) => Some(ix@),
                    None => None,
                },
            ),
            out@ == kept_by_position(pages@.take(i as int), keep),
        decreases pages@.len() - i,
    {
        let wanted = match indices {
            None => true,
            Some(ix) => index_listed(ix, i),
        };
        assert(pages@.take(i + 1).drop_last() =~= pages@.take(i as int));
        assert(pages@.take(i + 1).last() == pages@[i as int]);
        assert(wanted == keep(i as int));
        if wanted {
            out.push(pages[i]);
        }
        i = i + 1;
    }
    assert(pages@.take(i as int) =~= pages@);
    out
}

/// The pages numbered `start` through `end` (one-based, inclusive), in order.
pub fn select_page_range(pages: &Vec<(u32, u16)>, start: usize, end: usize) -> (r: Vec<(u32, u16)>)
    ensures
        r@ == kept_by_position(pages@, range_filter(start as int, end as int)),
{
    let ghost keep = range_filter(start as int, end as int);
    let mut out: Vec<(u32, u16)> = Vec::new();
    let mut i: usize = 0;
    assert(pages@.take(0) =~= Seq::<(u32, u16)>::empty());
    while i < pages.len()
        invariant
            i <= pages@.len(),
            keep == range_filter(start as int, end as int),
            out@ == kept_by_position(pages@.take(i as int), keep),
        decreases pages@.len() - i,
    {
        let p1 = i + 1;
        assert(pages@.take(i + 1).drop_last() =~= pages@.take(i as int));
        assert(pages@.take(i + 1).last() == pages@[i as int]);
        if p1 >= start && p1 <= end {
            out.push(pages[i]);
        }
        i = i + 1;
    }
    assert(pages@.take(i as int) =~= pages@);
    out
}

/// The objects that hold a document's page tree.
#[derive(Clone, Copy, Debug, PartialEq, Eq)]
pub struct PageTree {
    pub pages_id: (u32, u16),
    pub catalog_id: (u32, u16),
}

/// Why a page tree could not be written.
#[derive(Clone, Copy, Debug, PartialEq, Eq)]
pub enum AssembleError {
    /// Object numbers ran past `u32::MAX`.
    IdOverflow,
    /// No object has this page id.
    PageNotFound((u32, u16)),
    /// The object of this page id is not a dictionary.
    PageNotDictionary((u32, u16)),
}

/// `r` is what renumbering `d` from `start` gives, as far as it is known:
/// its pages are those `renumbered_pages` names, it holds no more objects
/// than `d`, and its objects use each number from `start` to its `max_id`,
/// none other.
pub open spec fn renumbered_from(d: Document, r: Document, start: u32) -> bool {
    &&& doc_pages(r) == renumbered_pages(d, start)
    &&& doc_max_id(r) + 1 == start + doc_object_count(r)
    &&& doc_object_count(r) <= doc_object_count(d)
    &&& forall|id: (u32, u16)| #[trigger] doc_object_ids(r).contains(id) ==> start <= id.0 <= doc_max_id(r)
    &&& forall|id: (u32, u16)| #[trigger] doc_dicts(r).contains_key(id) ==> doc_object_ids(r).contains(id)
    &&& forall|n: u32| start <= n <= doc_max_id(r) ==> #[trigger] number_used(r, n)
}

/// `after` is `into` with every object of `from` moved in (replacing any
/// with the same id) and the `max_id` of `from`; the trailer and the
/// version of `into` stay.
pub open spec fn absorbed(into: Document, from: Document, after: Document) -> bool {
    &&& doc_object_ids(after) == doc_object_ids(into).union(doc_object_ids(from))
    &&& doc_dicts(after) == doc_dicts(into).remove_keys(doc_object_ids(from)).union_prefer_right(
        doc_dicts(from),
    )
    &&& doc_streams(after) == doc_streams(into).remove_keys(doc_object_ids(from)).union_prefer_right(
        doc_streams(from),
    )
    &&& doc_trailer(after) == doc_trailer(into)
    &&& doc_version(after) == doc_version(into)
    &&& doc_max_id(after) == doc_max_id(from)
}

/// Where `finish_document` puts the page tree of `d`: the next two object
/// numbers.
pub open spec fn next_tree(d: Document) -> PageTree {
    PageTree {
        pages_id: ((doc_max_id(d) + 1) as u32, 0u16),
        catalog_id: ((doc_max_id(d) + 2) as u32, 0u16),
    }
}

/// Every page id names a dictionary object of `doc`.
pub open spec fn all_dictionaries(doc: Document, page_ids: Seq<(u32, u16)>) -> bool {
    forall|i: int| 0 <= i < page_ids.len() ==> doc_dictionary_ids(doc).contains(#[trigger] page_ids[i])
}

/// No object of `doc` has a number above its `max_id`, and every dictionary
/// is one of its objects: the ids that `Document::try_new_object_id` hands
/// out next are free.
pub open spec fn ids_at_most_max(doc: Document) -> bool {
    &&& forall|id: (u32, u16)| #[trigger] doc_object_ids(doc).contains(id) ==> id.0 <= doc_max_id(doc)
    &&& forall|id: (u32, u16)| #[trigger] doc_dicts(doc).contains_key(id) ==> doc_object_ids(doc).contains(id)
}

/// The entries of the `Pages` node over `pages`: its type, the pages in
/// order as `Kids`, and their number as `Count`.
pub open spec fn pages_node(pages: Seq<(u32, u16)>) -> Map<Seq<char>, EntryValue> {
    no_entries().insert("Type"@, EntryValue::Name("Pages"@)).insert(
        "Kids"@,
        EntryValue::References(pages),
    ).insert("Count"@, EntryValue::Integer((pages.len() as i64) as int))
}

/// The entries of a catalog whose page tree is the node `pages_id`.
pub open spec fn catalog_node(pages_id: (u32, u16)) -> Map<Seq<char>, EntryValue> {
    no_entries().insert("Type"@, EntryValue::Name("Catalog"@)).insert(
        "Pages"@,
        EntryValue::Reference(pages_id),
    )
}

/// A trailer whose only entry makes `catalog_id` the root.
pub open spec fn root_trailer(catalog_id: (u32, u16)) -> Map<Seq<char>, EntryValue> {
    no_entries().insert("Root"@, EntryValue::Reference(catalog_id))
}

/// `after` is `before` with the page tree over `pages` written at `t`: the
/// two next object numbers hold the `Pages` node and the catalog, every
/// page dictionary gains `Parent`, the other dictionaries are unchanged,
/// the trailer is replaced by one whose `Root` is the catalog, every
/// stream is compressed, and the version stays.
pub open spec fn tree_written(
    before: Document,
    after: Document,
    pages: Seq<(u32, u16)>,
    t: PageTree,
) -> bool {
    &&& t.pages_id == ((doc_max_id(before) + 1) as u32, 0u16)
    &&& t.catalog_id == ((doc_max_id(before) + 2) as u32, 0u16)
    &&& doc_max_id(after) == doc_max_id(before) + 2
    &&& doc_object_ids(after) == doc_object_ids(before).insert(t.pages_id).insert(t.catalog_id)
    &&& doc_dicts(after).dom() == doc_dicts(before).dom().insert(t.pages_id).insert(t.catalog_id)
    &&& doc_dicts(after)[t.pages_id] == pages_node(pages)
    &&& doc_dicts(after)[t.catalog_id] == catalog_node(t.pages_id)
    &&& forall|id: (u32, u16)|
        #![trigger doc_dicts(after)[id]]
        doc_dicts(before).contains_key(id) && id != t.pages_id && id != t.catalog_id
            ==> doc_dicts(after)[id] == (if pages.contains(id) {
            doc_dicts(before)[id].insert("Parent"@, EntryValue::Reference(t.pages_id))
        } else {
            doc_dicts(before)[id]
        })
    &&& doc_trailer(after) == root_trailer(t.catalog_id)
    &&& doc_streams(after) == all_compressed(doc_streams(before).remove(t.pages_id).remove(t.catalog_id))
    &&& doc_version(after) == doc_version(before)
}

/// The page tree of `doc` at `t` over `pages`, as a reader follows it: the
/// trailer's `Root` is the catalog, whose `Pages` is the `Pages` node, whose
/// `Kids` are the pages in order and whose `Count` is their number; every
/// page names the `Pages` node as its `Parent`.
pub open spec fn page_tree_linked(doc: Document, pages: Seq<(u32, u16)>, t: PageTree) -> bool {
    &&& doc_trailer(doc).contains_key("Root"@)
    &&& doc_trailer(doc)["Root"@] == EntryValue::Reference(t.catalog_id)
    &&& doc_dicts(doc).contains_key(t.catalog_id)
    &&& doc_dicts(doc)[t.catalog_id] == catalog_node(t.pages_id)
    &&& doc_dicts(doc).contains_key(t.pages_id)
    &&& doc_dicts(doc)[t.pages_id] == pages_node(pages)
    &&& forall|i: int|
        0 <= i < pages.len() ==> doc_dicts(doc).contains_key(#[trigger] pages[i]) && doc_dicts(
            doc,
        )[pages[i]].contains_key("Parent"@) && doc_dicts(doc)[pages[i]]["Parent"@]
            == EntryValue::Reference(t.pages_id)
}

/// A written page tree holds exactly its own entries: the `Pages` node has
/// `Type` `Pages`, `Kids` the pages in order and `Count` their number, and
/// no other entry; the catalog has `Type` `Catalog` and `Pages` the node,
/// and no other entry; the trailer has `Root` the catalog and nothing else;
/// every other dictionary keeps every entry but `Parent`, which each page of
/// the list gets, naming the `Pages` node.
pub proof fn lemma_tree_entries(
    before: Document,
    after: Document,
    pages: Seq<(u32, u16)>,
    t: PageTree,
)
    requires
        tree_written(before, after, pages, t),
    ensures
        doc_dicts(after).contains_key(t.pages_id),
        doc_dicts(after)[t.pages_id].dom() == set!["Type"@, "Kids"@, "Count"@],
        doc_dicts(after)[t.pages_id]["Type"@] == EntryValue::Name("Pages"@),
        doc_dicts(after)[t.pages_id]["Kids"@] == EntryValue::References(pages),
        doc_dicts(after)[t.pages_id]["Count"@] == EntryValue::Integer((pages.len() as i64) as int),
        doc_dicts(after).contains_key(t.catalog_id),
        doc_dicts(after)[t.catalog_id].dom() == set!["Type"@, "Pages"@],
        doc_dicts(after)[t.catalog_id]["Type"@] == EntryValue::Name("Catalog"@),
        doc_dicts(after)[t.catalog_id]["Pages"@] == EntryValue::Reference(t.pages_id),
        doc_trailer(after).dom() == set!["Root"@],
        doc_trailer(after)["Root"@] == EntryValue::Reference(t.catalog_id),
        forall|id: (u32, u16)|
            #![trigger doc_dicts(after)[id]]
            doc_dicts(before).contains_key(id) && id != t.pages_id && id != t.catalog_id
                ==> doc_dicts(after)[id].remove("Parent"@) == doc_dicts(before)[id].remove("Parent"@),
        forall|id: (u32, u16)|
            #![trigger doc_dicts(after)[id]]
            doc_dicts(before).contains_key(id) && id != t.pages_id && id != t.catalog_id
                && pages.contains(id) ==> doc_dicts(after)[id].contains_key("Parent"@)
                && doc_dicts(after)[id]["Parent"@] == EntryValue::Reference(t.pages_id),
{
    reveal_strlit("Type");
    reveal_strlit("Kids");
    reveal_strlit("Count");
    reveal_strlit("Pages");
    reveal_strlit("Catalog");
    reveal_strlit("Root");
    reveal_strlit("Parent");
    assert("Kids"@ != "Type"@) by {
        assert("Kids"@[0] != "Type"@[0]);
    }
    assert("Count"@ != "Type"@) by {
        assert("Count"@.len() != "Type"@.len());
    }
    assert("Count"@ != "Kids"@) by {
        assert("Count"@.len() != "Kids"@.len());
    }
    assert("Pages"@ != "Type"@) by {
        assert("Pages"@.len() != "Type"@.len());
    }
    assert(doc_dicts(after)[t.pages_id].dom() =~= set!["Type"@, "Kids"@, "Count"@]);
    assert(doc_dicts(after)[t.catalog_id].dom() =~= set!["Type"@, "Pages"@]);
    assert(doc_trailer(after).dom() =~= set!["Root"@]);
    assert forall|id: (u32, u16)|
        #![trigger doc_dicts(after)[id]]
        doc_dicts(before).contains_key(id) && id != t.pages_id && id != t.catalog_id implies doc_dicts(
            after,
        )[id].remove("Parent"@) == doc_dicts(before)[id].remove("Parent"@) by {
        if pages.contains(id) {
            assert(doc_dicts(before)[id].insert("Parent"@, EntryValue::Reference(t.pages_id)).remove(
                "Parent"@,
            ) =~= doc_dicts(before)[id].remove("Parent"@));
        }
    }
    assert forall|id: (u32, u16)|
        #![trigger doc_dicts(after)[id]]
        doc_dicts(before).contains_key(id) && id != t.pages_id && id != t.catalog_id
            && pages.contains(id) implies doc_dicts(after)[id].contains_key("Parent"@)
            && doc_dicts(after)[id]["Parent"@] == EntryValue::Reference(t.pages_id) by {
        assert(doc_dicts(after)[id] == doc_dicts(before)[id].insert(
            "Parent"@,
            EntryValue::Reference(t.pages_id),
        ));
    }
}

/// A page tree written over pages that are all dictionaries of a document
/// whose object numbers stay within its `max_id` links up: each link a
/// reader follows leads where it should.
pub proof fn lemma_written_tree_is_linked(
    before: Document,
    after: Document,
    pages: Seq<(u32, u16)>,
    t: PageTree,
)
    requires
        tree_written(before, after, pages, t),
        all_dictionaries(before, pages),
        ids_at_most_max(before),
        doc_max_id(before) + 2 <= u32::MAX,
    ensures
        page_tree_linked(after, pages, t),
{
    assert(root_trailer(t.catalog_id).contains_key("Root"@));
    assert forall|i: int| 0 <= i < pages.len() implies doc_dicts(after).contains_key(
        #[trigger] pages[i],
    ) && doc_dicts(after)[pages[i]].contains_key("Parent"@) && doc_dicts(after)[pages[i]]["Parent"@]
        == EntryValue::Reference(t.pages_id) by {
        let p = pages[i];
        assert(doc_dictionary_ids(before).contains(p));
        assert(doc_object_ids(before).contains(p));
        assert(pages.contains(p));
        assert(p != t.pages_id && p != t.catalog_id);
        assert(doc_dicts(after)[p] == doc_dicts(before)[p].insert(
            "Parent"@,
            EntryValue::Reference(t.pages_id),
        ));
    }
}

/// Writes the page tree of `doc` over `page_ids`, then compresses it: a
/// new `Pages` node (`Type`, `Kids` in the given order, `Count`) becomes
/// the `Parent` of every page, a new `Catalog` points at it, and the
/// trailer is replaced by one whose `Root` is the catalog. The two new
/// object numbers are the next two after `max_id`. It fails when a page id
/// names no object or a non-dictionary (the first such page is reported),
/// or when object numbers run out.
pub fn finish_document(doc: &mut Document, page_ids: &Vec<(u32, u16)>) -> (r: Result<
    PageTree,
    AssembleError,
>)
    ensures
        match r {
            Ok(t) => {
                &&& doc_max_id(*old(doc)) + 2 <= u32::MAX
                &&& all_dictionaries(*old(doc), page_ids@)
                &&& tree_written(*old(doc), *final(doc), page_ids@, t)
            },
            Err(AssembleError::IdOverflow) => doc_max_id(*old(doc)) == u32::MAX || (doc_max_id(
                *old(doc),
            ) + 1 == u32::MAX && all_dictionaries(*old(doc), page_ids@)),
            Err(AssembleError::PageNotFound(id)) => {
                &&& doc_max_id(*old(doc)) < u32::MAX
                &&& page_ids@.contains(id)
                &&& !doc_object_ids(*old(doc)).contains(id)
            },
            Err(AssembleError::PageNotDictionary(id)) => {
                &&& doc_max_id(*old(doc)) < u32::MAX
                &&& page_ids@.contains(id)
                &&& doc_object_ids(*old(doc)).contains(id)
                &&& !doc_dictionary_ids(*old(doc)).contains(id)
            },
        },
{
    let ghost start = doc_max_id(*doc);
    let ghost objects = doc_object_ids(*doc);
    let ghost dicts = doc_dicts(*doc);
    let pages_id = match next_object_id(doc) {
        Some(id) => id,
        None => {
            return Err(AssembleError::IdOverflow);
        },
    };
    let ghost parent = EntryValue::Reference(pages_id);
    let mut k: usize = 0;
    while k < page_ids.len()
        invariant
            k <= page_ids@.len(),
            doc_max_id(*doc) == start + 1,
            doc_object_ids(*doc) == objects,
            doc_dicts(*doc).dom() == dicts.dom(),
            doc_trailer(*doc) == doc_trailer(*old(doc)),
            doc_streams(*doc) == doc_streams(*old(doc)),
            doc_version(*doc) == doc_version(*old(doc)),
            start == doc_max_id(*old(doc)),
            objects == doc_object_ids(*old(doc)),
            dicts == doc_dicts(*old(doc)),
            pages_id == ((start + 1) as u32, 0u16),
            parent == EntryValue::Reference(pages_id),
            forall|j: int| 0 <= j < k ==> dicts.contains_key(#[trigger] page_ids@[j]),
            forall|id: (u32, u16)|
                #![trigger doc_dicts(*doc)[id]]
                dicts.contains_key(id) ==> doc_dicts(*doc)[id] == (if page_ids@.take(k as int).contains(
                    id,
                ) {
                    dicts[id].insert("Parent"@, parent)
                } else {
                    dicts[id]
                }),
        decreases page_ids@.len() - k,
    {
        let pid = page_ids[k];
        let ghost before = doc_dicts(*doc);
        match set_reference_entry(doc, pid, "Parent", pages_id) {
            Ok(()) => {},
            Err(EntryError::Missing) => {
                assert(page_ids@[k as int] == pid);
                assert(!objects.contains(pid));
                return Err(AssembleError::PageNotFound(pid));
            },
            Err(EntryError::NotDictionary) => {
                assert(page_ids@[k as int] == pid);
                assert(objects.contains(pid) && !dicts.contains_key(pid));
                return Err(AssembleError::PageNotDictionary(pid));
            },
        }
        proof {
            let t0 = page_ids@.take(k as int);
            let t1 = page_ids@.take(k + 1);
            assert(t1 =~= t0.push(pid));
            assert forall|id: (u32, u16)|
                #![trigger doc_dicts(*doc)[id]]
                dicts.contains_key(id) implies doc_dicts(*doc)[id] == (if t1.contains(id) {
                    dicts[id].insert("Parent"@, parent)
                } else {
                    dicts[id]
                }) by {
                if id == pid {
                    assert(t1[k as int] == pid);
                    assert(before[id].insert("Parent"@, parent) =~= dicts[id].insert("Parent"@, parent));
                } else {
                    assert(t1.contains(id) == t0.contains(id)) by {
                        if t1.contains(id) {
                            let q = choose|q: int| 0 <= q < t1.len() && t1[q] == id;
                            assert(t0[q] == id);
                        }
                        if t0.contains(id) {
                            let q = choose|q: int| 0 <= q < t0.len() && t0[q] == id;
                            assert(t1[q] == id);
                        }
                    }
                }
            }
            assert(doc_dicts(*doc).dom() =~= dicts.dom());
        }
        k = k + 1;
    }
    assert(page_ids@.take(k as int) =~= page_ids@);
    assert(all_dictionaries(*old(doc), page_ids@));
    let ghost parents_set = doc_dicts(*doc);
    let mut pages_dict = new_dictionary();
    dictionary_set(&mut pages_dict, "Type", PdfValue::Name("Pages"));
    dictionary_set(&mut pages_dict, "Kids", PdfValue::References(page_ids));
    dictionary_set(&mut pages_dict, "Count", PdfValue::Integer(page_ids.len() as i64));
    assert(dict_entries(pages_dict) == pages_node(page_ids@));
    insert_dictionary(doc, pages_id, pages_dict);
    let catalog_id = match next_object_id(doc) {
        Some(id) => id,
        None => {
            return Err(AssembleError::IdOverflow);
        },
    };
    let mut catalog = new_dictionary();
    dictionary_set(&mut catalog, "Type", PdfValue::Name("Catalog"));
    dictionary_set(&mut catalog, "Pages", PdfValue::Reference(pages_id));
    insert_dictionary(doc, catalog_id, catalog);
    let mut trailer = new_dictionary();
    dictionary_set(&mut trailer, "Root", PdfValue::Reference(catalog_id));
    set_trailer(doc, trailer);
    compress_document(doc);
    let t = PageTree { pages_id, catalog_id };
    proof {
        assert(doc_dicts(*doc) == parents_set.insert(pages_id, pages_node(page_ids@)).insert(
            catalog_id,
            catalog_node(pages_id),
        ));
        assert(doc_dicts(*doc).dom() =~= dicts.dom().insert(pages_id).insert(catalog_id));
        assert(doc_object_ids(*doc) =~= objects.insert(pages_id).insert(catalog_id));
        assert(doc_streams(*doc) =~= all_compressed(
            doc_streams(*old(doc)).remove(pages_id).remove(catalog_id),
        ));
    }
    Ok(t)
}

} // verus!
