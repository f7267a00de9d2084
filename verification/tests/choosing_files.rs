use pdf_ops::merge::select_merge_inputs;
use pdf_ops::paths::{compare_paths, is_pdf_file_name, relative_bytes, FsPath, PathPart};
use pdf_ops::scan::{collect_pdfs, DirEntryInfo, ScanError};

fn path(text: &str) -> FsPath {
    let mut parts = Vec::new();
    if text.starts_with('/') {
        parts.push(PathPart::RootDir);
    }
    for (i, piece) in text.split('/').enumerate() {
        match piece {
            "" => {}
            "." if i == 0 => parts.push(PathPart::CurDir),
            "." => {}
            ".." => parts.push(PathPart::ParentDir),
            name => parts.push(PathPart::Normal(name.as_bytes().to_vec())),
        }
    }
    FsPath { parts }
}

fn text(p: &FsPath) -> String {
    String::from_utf8(relative_bytes(p, &FsPath { parts: Vec::new() })).unwrap()
}

fn file(p: &str) -> DirEntryInfo {
    DirEntryInfo { path: path(p), real_path: path(p), is_file: true }
}

fn dir(p: &str) -> DirEntryInfo {
    DirEntryInfo { path: path(p), real_path: path(p), is_file: false }
}

/// A file walked under one spelling that resolves to another path.
fn file_at(walked: &str, real: &str) -> DirEntryInfo {
    DirEntryInfo { path: path(walked), real_path: path(real), is_file: true }
}

fn texts(v: &[FsPath]) -> Vec<String> {
    v.iter().map(text).collect()
}

fn strings(v: &[&str]) -> Vec<String> {
    v.iter().map(|s| s.to_string()).collect()
}

fn walk() -> Vec<DirEntryInfo> {
    vec![
        dir("/in"),
        file("/in/b.pdf"),
        file("/in/notes.txt"),
        dir("/in/sub"),
        file("/in/sub/c.pdf"),
        file("/in/a.PDF"),
        file("/in/.pdf"),
        dir("/in/folder.pdf"),
        file("/in/backup/old.pdf"),
        file("/in/draft-x.pdf"),
    ]
}

#[test]
fn pdf_extension_is_case_insensitive_and_needs_a_stem() {
    assert!(is_pdf_file_name(&path("/a/x.pdf")));
    assert!(is_pdf_file_name(&path("x.PdF")));
    assert!(is_pdf_file_name(&path("a.b.pdf")));
    assert!(is_pdf_file_name(&path("..pdf")));
    assert!(!is_pdf_file_name(&path(".pdf")));
    assert!(!is_pdf_file_name(&path("pdf")));
    assert!(!is_pdf_file_name(&path("x.pdfx")));
    assert!(!is_pdf_file_name(&path("x.pdf.txt")));
    assert!(!is_pdf_file_name(&path("/")));
    assert!(!is_pdf_file_name(&path("x.pdf/..")));
}

#[test]
fn paths_order_by_components() {
    // "a" sorts before "a-b" as a component, although '-' < '/' as bytes
    assert!(compare_paths(&path("/in/a/b.pdf"), &path("/in/a-b.pdf")) < 0);
    assert!(compare_paths(&path("/in/a-b.pdf"), &path("/in/a/b.pdf")) > 0);
    assert_eq!(compare_paths(&path("/x/y"), &path("/x/y")), 0);
    assert!(compare_paths(&path("/x"), &path("/x/y")) < 0);
    assert!(compare_paths(&path("/z"), &path("a")) < 0);
}

#[test]
fn paths_are_matched_relative_to_the_input_directory() {
    let rel = relative_bytes(&path("/in/sub/c.pdf"), &path("/in"));
    assert_eq!(rel, b"sub/c.pdf".to_vec());
    let outside = relative_bytes(&path("/other/c.pdf"), &path("/in"));
    assert_eq!(outside, b"/other/c.pdf".to_vec());
    assert_eq!(relative_bytes(&path("./in/x.pdf"), &path("./in")), b"x.pdf".to_vec());
}

#[test]
fn collect_without_globs_keeps_every_pdf_sorted() {
    let found = collect_pdfs(&path("/in"), walk(), &vec![], &vec![], &vec![]).unwrap();
    assert_eq!(
        texts(&found),
        strings(&["/in/a.PDF", "/in/b.pdf", "/in/backup/old.pdf", "/in/draft-x.pdf", "/in/sub/c.pdf"])
    );
}

#[test]
fn collect_sorts_by_components() {
    let entries = vec![file("/in/a-b.pdf"), file("/in/a/b.pdf"), file("/in/a.pdf")];
    let found = collect_pdfs(&path("/in"), entries, &vec![], &vec![], &vec![]).unwrap();
    assert_eq!(texts(&found), strings(&["/in/a/b.pdf", "/in/a-b.pdf", "/in/a.pdf"]));
}

#[test]
fn collect_applies_the_readme_globs() {
    let found = collect_pdfs(
        &path("/in"),
        walk(),
        &strings(&["**/*.pdf"]),
        &strings(&["backup/**", "**/*draft*.pdf"]),
        &vec![],
    )
    .unwrap();
    // "**/*.pdf" is case sensitive: "a.PDF" is not included
    assert_eq!(texts(&found), strings(&["/in/b.pdf", "/in/sub/c.pdf"]));
}

#[test]
fn collect_excludes_only_what_matches() {
    let found = collect_pdfs(&path("/in"), walk(), &vec![], &strings(&["sub/*"]), &vec![]).unwrap();
    assert_eq!(
        texts(&found),
        strings(&["/in/a.PDF", "/in/b.pdf", "/in/backup/old.pdf", "/in/draft-x.pdf"])
    );
}

#[test]
fn collect_skips_the_given_paths() {
    let found =
        collect_pdfs(&path("/in"), walk(), &vec![], &vec![], &vec![path("/in/b.pdf"), path("/in/a.PDF")])
            .unwrap();
    assert_eq!(texts(&found), strings(&["/in/backup/old.pdf", "/in/draft-x.pdf", "/in/sub/c.pdf"]));
}

#[test]
fn collect_reports_invalid_globs() {
    match collect_pdfs(&path("/in"), walk(), &strings(&["*.pdf", "a[", "b["]), &strings(&["c["]), &vec![]) {
        Err(ScanError::InvalidInclude(p)) => assert_eq!(p, "a["),
        other => panic!("unexpected {:?}", other),
    }
    match collect_pdfs(&path("/in"), walk(), &strings(&["*.pdf"]), &strings(&["ok", "c{"]), &vec![]) {
        Err(ScanError::InvalidExclude(p)) => assert_eq!(p, "c{"),
        other => panic!("unexpected {:?}", other),
    }
}

#[test]
fn merge_never_takes_its_own_output() {
    let mut entries = walk();
    entries.push(file("/in/merged.pdf"));
    let inputs =
        select_merge_inputs(&path("/in"), entries, path("/in/merged.pdf"), &vec![], &vec![]).unwrap();
    assert!(!texts(&inputs).contains(&"/in/merged.pdf".to_string()));
    assert_eq!(inputs.len(), 5);
}

#[test]
fn merge_needs_some_pdf() {
    let entries = vec![file("/in/merged.pdf"), file("/in/a.txt")];
    assert!(matches!(
        select_merge_inputs(&path("/in"), entries, path("/in/merged.pdf"), &vec![], &vec![]),
        Err(ScanError::NoPdfFound)
    ));
    assert!(matches!(
        select_merge_inputs(&path("/in"), vec![], path("/in/m.pdf"), &strings(&["["]), &vec![]),
        Err(ScanError::InvalidInclude(_))
    ));
}

#[test]
fn merge_skips_its_output_however_spelled() {
    let entries = vec![
        file_at("./in/a.pdf", "/work/in/a.pdf"),
        file_at("./in/m.pdf", "/work/in/m.pdf"),
        file_at("./in/link.pdf", "/work/in/m.pdf"),
    ];
    let inputs =
        select_merge_inputs(&path("./in"), entries, path("/work/in/m.pdf"), &vec![], &vec![]).unwrap();
    assert_eq!(texts(&inputs), strings(&["./in/a.pdf"]));
}

#[test]
fn merge_takes_what_collect_chooses() {
    let mut entries = walk();
    entries.push(file("/in/merged.pdf"));
    let collected =
        collect_pdfs(&path("/in"), walk(), &vec![], &strings(&["sub/*"]), &vec![path("/in/merged.pdf")])
            .unwrap();
    let merged =
        select_merge_inputs(&path("/in"), entries, path("/in/merged.pdf"), &vec![], &strings(&["sub/*"]))
            .unwrap();
    assert_eq!(texts(&merged), texts(&collected));
}

#[test]
fn more_excludes_never_add_a_file() {
    let wide = texts(&collect_pdfs(&path("/in"), walk(), &vec![], &strings(&["sub/*"]), &vec![]).unwrap());
    let narrow = texts(
        &collect_pdfs(
            &path("/in"),
            walk(),
            &vec![],
            &strings(&["sub/*", "backup/**"]),
            &vec![path("/in/b.pdf")],
        )
        .unwrap(),
    );
    assert_eq!(narrow, strings(&["/in/a.PDF", "/in/draft-x.pdf"]));
    assert!(narrow.iter().all(|p| wide.contains(p)));
}

#[test]
fn more_includes_never_drop_a_file() {
    let narrow =
        texts(&collect_pdfs(&path("/in"), walk(), &strings(&["sub/*"]), &vec![], &vec![]).unwrap());
    let wider = texts(
        &collect_pdfs(&path("/in"), walk(), &strings(&["sub/*", "*.pdf"]), &vec![], &vec![]).unwrap(),
    );
    let widest = texts(&collect_pdfs(&path("/in"), walk(), &vec![], &vec![], &vec![]).unwrap());
    assert_eq!(narrow, strings(&["/in/sub/c.pdf"]));
    assert!(narrow.iter().all(|p| wider.contains(p)));
    assert!(wider.iter().all(|p| widest.contains(p)));
    assert!(wider.len() > narrow.len());
}

#[test]
fn collect_reports_glob_sets_that_cannot_be_compiled() {
    let huge = "[ab]".repeat(400_000);
    match collect_pdfs(&path("/in"), walk(), &vec![huge.clone()], &vec![], &vec![]) {
        Err(ScanError::IncludeSetRejected) => {}
        other => panic!("unexpected {:?}", other),
    }
    match collect_pdfs(&path("/in"), walk(), &vec![], &vec![huge], &vec![]) {
        Err(ScanError::ExcludeSetRejected) => {}
        other => panic!("unexpected {:?}", other),
    }
}

#[test]
fn collect_lists_each_path_once_in_strict_order() {
    let found = collect_pdfs(&path("/in"), walk(), &vec![], &vec![], &vec![]).unwrap();
    for pair in found.windows(2) {
        assert!(compare_paths(&pair[0], &pair[1]) < 0);
    }
}
