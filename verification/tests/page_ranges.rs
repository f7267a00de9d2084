use pdf_ops::page_spec::{expand_to_indexes, parse_spec, PageRange, PageSpecError};

fn r(start: usize, end: Option<usize>) -> PageRange {
    PageRange { start, end }
}

#[test]
fn parse_spec_reads_the_documented_forms() {
    assert_eq!(
        parse_spec("1-3,5,10-").unwrap(),
        vec![r(1, Some(3)), r(5, Some(5)), r(10, None)]
    );
}

#[test]
fn parse_spec_ignores_blanks_around_items_and_dashes() {
    assert_eq!(
        parse_spec(" 2 - 4 ,\t7 , 9- ").unwrap(),
        vec![r(2, Some(4)), r(7, Some(7)), r(9, None)]
    );
}

#[test]
fn parse_spec_keeps_ranges_as_written() {
    // out-of-order and zero bounds are read; clamping happens later
    assert_eq!(parse_spec("5-3,0").unwrap(), vec![r(5, Some(3)), r(0, Some(0))]);
}

#[test]
fn parse_spec_reports_the_first_bad_item() {
    assert_eq!(parse_spec(""), Err(PageSpecError { item: 0 }));
    assert_eq!(parse_spec("1,,2"), Err(PageSpecError { item: 1 }));
    assert_eq!(parse_spec("a"), Err(PageSpecError { item: 0 }));
    assert_eq!(parse_spec("1-x,y"), Err(PageSpecError { item: 0 }));
    assert_eq!(parse_spec("1,2,-3"), Err(PageSpecError { item: 2 }));
    assert_eq!(parse_spec("1,2,"), Err(PageSpecError { item: 2 }));
    assert_eq!(parse_spec("1 2"), Err(PageSpecError { item: 0 }));
    assert_eq!(parse_spec("3-4-5"), Err(PageSpecError { item: 0 }));
}

#[test]
fn parse_spec_rejects_numbers_past_usize() {
    let too_big = format!("{}0", usize::MAX);
    assert_eq!(parse_spec(&too_big), Err(PageSpecError { item: 0 }));
    assert_eq!(parse_spec(&usize::MAX.to_string()).unwrap(), vec![r(usize::MAX, Some(usize::MAX))]);
}

#[test]
fn expand_lists_zero_based_indices_in_order() {
    let ranges = parse_spec("1-3,5,10-").unwrap();
    assert_eq!(expand_to_indexes(&ranges, 12), vec![0, 1, 2, 4, 9, 10, 11]);
}

#[test]
fn expand_clamps_to_the_document() {
    let ranges = parse_spec("1-3,5,10-").unwrap();
    assert_eq!(expand_to_indexes(&ranges, 4), vec![0, 1, 2]);
    assert_eq!(expand_to_indexes(&vec![r(0, Some(2))], 5), vec![0, 1]);
    assert_eq!(expand_to_indexes(&vec![r(4, Some(2))], 5), Vec::<usize>::new());
    assert_eq!(expand_to_indexes(&vec![r(2, None)], 0), Vec::<usize>::new());
}

#[test]
fn expand_keeps_overlaps() {
    assert_eq!(expand_to_indexes(&vec![r(2, Some(3)), r(1, Some(2))], 9), vec![1, 2, 0, 1]);
}
