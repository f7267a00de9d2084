use lopdf::{Dictionary, Document, Object, ObjectId};
use pdf_ops::merge::{overwrite_allowed, MergeBuilder, MergeError};
use pdf_ops::pdf::{finish_document, page_count, select_page_range, select_pages, AssembleError};
use pdf_ops::split::extract_pages;

/// A document of `n` pages, each page carrying its number in `Label`.
fn sample(n: i64, first_label: i64) -> Document {
    let mut doc = Document::with_version("1.5");
    let pages_id = doc.new_object_id();
    let mut kids = Vec::new();
    for i in 0..n {
        let mut page = Dictionary::new();
        page.set("Type", "Page");
        page.set("Parent", Object::Reference(pages_id));
        page.set("Label", Object::Integer(first_label + i));
        kids.push(Object::Reference(doc.add_object(Object::Dictionary(page))));
    }
    let mut pages = Dictionary::new();
    pages.set("Type", "Pages");
    pages.set("Kids", Object::Array(kids));
    pages.set("Count", Object::Integer(n));
    doc.objects.insert(pages_id, Object::Dictionary(pages));
    let mut catalog = Dictionary::new();
    catalog.set("Type", "Catalog");
    catalog.set("Pages", Object::Reference(pages_id));
    let catalog_id = doc.add_object(Object::Dictionary(catalog));
    doc.trailer.set("Root", Object::Reference(catalog_id));
    doc
}

fn labels(doc: &Document) -> Vec<i64> {
    doc.get_pages()
        .values()
        .map(|id| {
            doc.get_dictionary(*id)
                .unwrap()
                .get(b"Label")
                .unwrap()
                .as_i64()
                .unwrap()
        })
        .collect()
}

fn round_trip(mut doc: Document) -> Document {
    let mut bytes = Vec::new();
    doc.save_to(&mut bytes).unwrap();
    Document::load_mem(&bytes).unwrap()
}

#[test]
fn page_count_counts_pages() {
    assert_eq!(page_count(&sample(4, 1)), 4);
    assert_eq!(page_count(&Document::with_version("1.5")), 0);
}

#[test]
fn select_pages_keeps_listed_positions_in_page_order() {
    let pages: Vec<ObjectId> = vec![(10, 0), (11, 0), (12, 0), (13, 0)];
    assert_eq!(select_pages(&pages, Some(&vec![3, 0, 9])), vec![(10, 0), (13, 0)]);
    assert_eq!(select_pages(&pages, None), pages);
    assert_eq!(select_pages(&pages, Some(&vec![])), Vec::<ObjectId>::new());
}

#[test]
fn select_page_range_is_one_based_and_inclusive() {
    let pages: Vec<ObjectId> = vec![(10, 0), (11, 0), (12, 0), (13, 0)];
    assert_eq!(select_page_range(&pages, 2, 3), vec![(11, 0), (12, 0)]);
    assert_eq!(select_page_range(&pages, 3, 99), vec![(12, 0), (13, 0)]);
    assert_eq!(select_page_range(&pages, 3, 2), Vec::<ObjectId>::new());
}

#[test]
fn merge_takes_every_page_of_every_input() {
    let mut merge = MergeBuilder::new();
    merge.add_document(sample(3, 1), None).unwrap();
    merge.add_document(sample(2, 101), None).unwrap();
    let doc = round_trip(merge.finish().unwrap());
    assert_eq!(labels(&doc), vec![1, 2, 3, 101, 102]);
}

#[test]
fn merge_applies_the_page_ranges_to_each_input() {
    let mut merge = MergeBuilder::new();
    merge.add_document(sample(4, 1), Some("1,3-")).unwrap();
    merge.add_document(sample(2, 101), Some("1,3-")).unwrap();
    let doc = round_trip(merge.finish().unwrap());
    assert_eq!(labels(&doc), vec![1, 3, 4, 101]);
}

#[test]
fn merge_numbers_objects_after_the_inputs() {
    let mut merge = MergeBuilder::new();
    let first = sample(2, 1);
    let objects = first.objects.len() as u32;
    merge.add_document(first, None).unwrap();
    let doc = merge.finish().unwrap();
    // the inputs' objects take 1..=objects; the page tree and catalog follow
    assert_eq!(doc.max_id, objects + 2);
    assert!(doc.objects.contains_key(&(objects + 1, 0)));
    assert_eq!(doc.trailer.get(b"Root").unwrap().as_reference().unwrap(), (objects + 2, 0));
}

#[test]
fn merge_reports_bad_page_ranges() {
    let mut merge = MergeBuilder::new();
    match merge.add_document(sample(2, 1), Some("1,x")) {
        Err(MergeError::BadPages(e)) => assert_eq!(e.item, 1),
        other => panic!("unexpected {:?}", other),
    }
}

#[test]
fn merge_of_nothing_has_no_pages() {
    let doc = round_trip(MergeBuilder::new().finish().unwrap());
    assert_eq!(labels(&doc), Vec::<i64>::new());
}

#[test]
fn extract_keeps_the_asked_pages() {
    let part = extract_pages(sample(5, 1), 2, 4).unwrap();
    assert_eq!(part.pages.len(), 3);
    let doc = round_trip(part.document);
    assert_eq!(labels(&doc), vec![2, 3, 4]);
}

#[test]
fn extract_single_page() {
    let part = extract_pages(sample(3, 7), 3, 3).unwrap();
    assert_eq!(labels(&round_trip(part.document)), vec![9]);
}

#[test]
fn finish_document_reports_missing_pages() {
    let mut doc = Document::with_version("1.5");
    match finish_document(&mut doc, &vec![(5, 0)]) {
        Err(AssembleError::PageNotFound(id)) => assert_eq!(id, (5, 0)),
        other => panic!("unexpected {:?}", other),
    }
    let mut doc = Document::with_version("1.5");
    doc.objects.insert((1, 0), Object::Integer(3));
    doc.max_id = 1;
    match finish_document(&mut doc, &vec![(1, 0)]) {
        Err(AssembleError::PageNotDictionary(id)) => assert_eq!(id, (1, 0)),
        other => panic!("unexpected {:?}", other),
    }
}

#[test]
fn finish_document_reports_exhausted_ids() {
    let mut doc = Document::with_version("1.5");
    doc.max_id = u32::MAX;
    assert!(matches!(finish_document(&mut doc, &vec![]), Err(AssembleError::IdOverflow)));
    let mut doc = Document::with_version("1.5");
    doc.max_id = u32::MAX - 1;
    assert!(matches!(finish_document(&mut doc, &vec![]), Err(AssembleError::IdOverflow)));
}

#[test]
fn overwrite_needs_force() {
    assert!(overwrite_allowed(false, false));
    assert!(overwrite_allowed(false, true));
    assert!(overwrite_allowed(true, true));
    assert!(!overwrite_allowed(true, false));
}

fn dict<'a>(doc: &'a Document, id: ObjectId) -> &'a Dictionary {
    doc.get_dictionary(id).unwrap()
}

/// Checks the page tree that the library writes: trailer, catalog, `Pages`
/// node, and the `Parent` of every page.
fn assert_linked(doc: &Document, pages: &[ObjectId]) {
    let catalog_id = doc.trailer.get(b"Root").unwrap().as_reference().unwrap();
    let catalog = dict(doc, catalog_id);
    assert_eq!(catalog.get(b"Type").unwrap().as_name().unwrap(), b"Catalog");
    let pages_id = catalog.get(b"Pages").unwrap().as_reference().unwrap();
    let node = dict(doc, pages_id);
    assert_eq!(node.get(b"Type").unwrap().as_name().unwrap(), b"Pages");
    assert_eq!(node.get(b"Count").unwrap().as_i64().unwrap(), pages.len() as i64);
    let kids: Vec<ObjectId> =
        node.get(b"Kids").unwrap().as_array().unwrap().iter().map(|k| k.as_reference().unwrap()).collect();
    assert_eq!(kids, pages.to_vec());
    for id in pages {
        assert_eq!(dict(doc, *id).get(b"Parent").unwrap().as_reference().unwrap(), pages_id);
    }
}

#[test]
fn merge_writes_a_linked_page_tree() {
    let mut merge = MergeBuilder::new();
    merge.add_document(sample(3, 1), Some("3,1")).unwrap();
    merge.add_document(sample(2, 101), None).unwrap();
    let doc = merge.finish().unwrap();
    let pages: Vec<ObjectId> = doc.get_pages().into_values().collect();
    assert_eq!(pages.len(), 4);
    assert_linked(&doc, &pages);
    assert_eq!(labels(&doc), vec![1, 3, 101, 102]);
}

#[test]
fn extract_writes_a_linked_page_tree() {
    let part = extract_pages(sample(4, 1), 2, 3).unwrap();
    assert_eq!(part.tree.pages_id.0 + 1, part.tree.catalog_id.0);
    assert_eq!(part.document.max_id, part.tree.catalog_id.0);
    assert_linked(&part.document, &part.pages);
}

#[test]
fn order_of_ranges_does_not_matter() {
    let mut one = MergeBuilder::new();
    one.add_document(sample(5, 1), Some("4-,1-2")).unwrap();
    let mut other = MergeBuilder::new();
    other.add_document(sample(5, 1), Some("1,2,2,5,4-5")).unwrap();
    let a = round_trip(one.finish().unwrap());
    let b = round_trip(other.finish().unwrap());
    assert_eq!(labels(&a), vec![1, 2, 4, 5]);
    assert_eq!(labels(&a), labels(&b));
}

#[test]
fn merged_and_split_documents_are_version_1_5() {
    let mut merge = MergeBuilder::new();
    merge.add_document(sample(2, 1), None).unwrap();
    assert_eq!(merge.finish().unwrap().version, "1.5");
    let part = extract_pages(sample(3, 1), 1, 2).unwrap();
    assert_eq!(part.document.version, "1.5");
}

#[test]
fn finishing_compresses_the_streams() {
    let mut doc = sample(1, 1);
    let content = lopdf::Stream::new(Dictionary::new(), vec![b'a'; 4096]);
    let stream_id = doc.add_object(Object::Stream(content));
    let small = lopdf::Stream::new(Dictionary::new(), b"BT ET".to_vec());
    let small_id = doc.add_object(Object::Stream(small));
    let pages: Vec<ObjectId> = doc.get_pages().into_values().collect();
    finish_document(&mut doc, &pages).unwrap();
    let big = doc.get_object(stream_id).unwrap().as_stream().unwrap();
    assert_eq!(big.dict.get(b"Filter").unwrap().as_name().unwrap(), b"FlateDecode");
    assert!(big.content.len() + 19 < 4096);
    assert_eq!(big.dict.get(b"Length").unwrap().as_i64().unwrap(), big.content.len() as i64);
    // too short to gain from compression: left as it is
    let small = doc.get_object(small_id).unwrap().as_stream().unwrap();
    assert!(small.dict.get(b"Filter").is_err());
    assert_eq!(small.content, b"BT ET".to_vec());
}
