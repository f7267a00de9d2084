use pdf_ops::page_spec::PageSpecError;
use pdf_ops::split::{plan_split, SplitError, SplitPart};

fn part(start: usize, end: usize, index: usize) -> SplitPart {
    SplitPart { start, end, index }
}

#[test]
fn split_needs_pages() {
    assert!(matches!(plan_split(0, true, None), Err(SplitError::NoPages)));
    assert!(matches!(plan_split(0, false, Some("1-2")), Err(SplitError::NoPages)));
}

#[test]
fn split_each_gives_one_part_per_page() {
    let plan = plan_split(3, true, None).unwrap();
    assert_eq!(plan.parts, vec![part(1, 1, 1), part(2, 2, 2), part(3, 3, 3)]);
    assert_eq!(plan.group_count, 3);
}

#[test]
fn split_each_wins_over_ranges() {
    let plan = plan_split(2, true, Some("1-2")).unwrap();
    assert_eq!(plan.parts, vec![part(1, 1, 1), part(2, 2, 2)]);
}

#[test]
fn split_by_ranges_follows_the_readme_example() {
    let plan = plan_split(10, false, Some("1-3,4-6,7-")).unwrap();
    assert_eq!(plan.parts, vec![part(1, 3, 1), part(4, 6, 2), part(7, 10, 3)]);
    assert_eq!(plan.group_count, 3);
}

#[test]
fn split_drops_ranges_outside_the_document() {
    let plan = plan_split(5, false, Some("7-9,2-3,0-1,4-100")).unwrap();
    assert_eq!(plan.parts, vec![part(2, 3, 2), part(1, 1, 3), part(4, 5, 4)]);
    assert_eq!(plan.group_count, 4);
}

#[test]
fn split_needs_a_mode() {
    assert!(matches!(plan_split(5, false, None), Err(SplitError::NoMode)));
}

#[test]
fn split_reports_bad_ranges() {
    match plan_split(5, false, Some("1-2,x")) {
        Err(SplitError::BadRanges(e)) => assert_eq!(e, PageSpecError { item: 1 }),
        other => panic!("unexpected {:?}", other),
    }
}
