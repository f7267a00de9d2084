use pdf_ops::split::fill_pattern;
use pdf_ops::text::{replace_all_occurrences, to_decimal};

#[test]
fn fill_pattern_substitutes_every_placeholder() {
    assert_eq!(fill_pattern("{base}_{start}-{end}.pdf", "report", 1, 3, 1), "report_1-3.pdf");
    assert_eq!(fill_pattern("{index}/{base}-p{start}.pdf", "a", 7, 7, 12), "12/a-p7.pdf");
}

#[test]
fn fill_pattern_replaces_repeated_placeholders() {
    assert_eq!(fill_pattern("{index}-{index}-{end}", "x", 0, 10, 5), "5-5-10");
}

#[test]
fn fill_pattern_keeps_plain_text() {
    assert_eq!(fill_pattern("out.pdf", "base", 4, 9, 2), "out.pdf");
    assert_eq!(fill_pattern("", "base", 4, 9, 2), "");
    assert_eq!(fill_pattern("{part}-{base.pdf", "b", 4, 9, 2), "{part}-{base.pdf");
}

#[test]
fn fill_pattern_substitutes_in_order() {
    // `{base}` is filled first, so placeholders inside the base name are
    // filled afterwards, as chained `str::replace` calls do.
    assert_eq!(fill_pattern("{base}.pdf", "x{start}", 5, 6, 1), "x5.pdf");
    assert_eq!(fill_pattern("{end}{base}", "{end}", 1, 2, 3), "22");
    // `{index}` is filled last: a base name holding `{base}` keeps it
    assert_eq!(fill_pattern("{base}", "{base}{index}", 1, 2, 3), "{base}3");
}

#[test]
fn fill_pattern_handles_non_ascii_text() {
    assert_eq!(fill_pattern("页{start}到{end}_{base}.pdf", "文档", 2, 8, 1), "页2到8_文档.pdf");
}

#[test]
fn fill_pattern_renders_large_numbers() {
    assert_eq!(
        fill_pattern("{start}", "", usize::MAX, 0, 0),
        usize::MAX.to_string()
    );
}

#[test]
fn decimal_rendering_matches_to_string() {
    for n in [0usize, 1, 9, 10, 11, 99, 100, 101, 12345, 1_000_000, usize::MAX] {
        assert_eq!(to_decimal(n), n.to_string());
    }
}

#[test]
fn replace_is_left_to_right_and_non_overlapping() {
    assert_eq!(replace_all_occurrences("aaaa", "aa", "b"), "bb");
    assert_eq!(replace_all_occurrences("aaa", "aa", "b"), "ba");
    assert_eq!(replace_all_occurrences("abcabc", "bc", ""), "aa");
    assert_eq!(replace_all_occurrences("xyz", "q", "r"), "xyz");
    assert_eq!(replace_all_occurrences("ab", "abc", "r"), "ab");
    for (s, p, r) in [("{a}{b}{a}", "{a}", "1"), ("aXbXc", "X", "--"), ("ééé", "é", "e")] {
        assert_eq!(replace_all_occurrences(s, p, r), s.replace(p, r));
    }
}

#[test]
fn replace_with_an_empty_pattern_surrounds_every_character() {
    assert_eq!(replace_all_occurrences("abc", "", "-"), "-a-b-c-");
    assert_eq!(replace_all_occurrences("", "", "x"), "x");
    for (s, r) in [("é文", "|"), ("ab", ""), ("", "")] {
        assert_eq!(replace_all_occurrences(s, "", r), s.replace("", r));
    }
}
