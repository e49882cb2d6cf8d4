use dinoscore::page_files::{
    decimal_string, file_extension, find_page_file, is_pdf_extension, page_file_name, page_file_prefix,
    PageFileError,
};

fn names(list: &[&str]) -> Vec<String> {
    list.iter().map(|s| s.to_string()).collect()
}

#[test]
fn decimal_digits() {
    assert_eq!(decimal_string(0), "0");
    assert_eq!(decimal_string(7), "7");
    assert_eq!(decimal_string(1234), "1234");
    assert_eq!(decimal_string(usize::MAX), usize::MAX.to_string());
}

#[test]
fn page_names() {
    assert_eq!(page_file_prefix(3), "page_3.");
    assert_eq!(page_file_name(12, "png"), "page_12.png");
    assert_eq!(page_file_name(0, "pdf"), "page_0.pdf");
}

#[test]
fn extensions() {
    assert_eq!(file_extension("page_1.tar.gz"), "gz");
    assert_eq!(file_extension("page_2.pdf"), "pdf");
    assert_eq!(file_extension("noext"), "noext");
    assert_eq!(file_extension("trailing."), "");
    assert!(is_pdf_extension("pdf"));
    assert!(!is_pdf_extension("png"));
    assert!(!is_pdf_extension("pdff"));
}

#[test]
fn page_found_by_prefix() {
    let n = names(&["song.json", "page_1.png", "page_10.pdf", "page_0.pdf", "thumbnail"]);
    assert_eq!(find_page_file(&n, 0).ok(), Some(3));
    assert_eq!(find_page_file(&n, 1).ok(), Some(1));
    assert_eq!(find_page_file(&n, 10).ok(), Some(2));
}

#[test]
fn missing_page_is_reported() {
    let n = names(&["song.json", "page_1.png"]);
    assert!(matches!(find_page_file(&n, 2), Err(PageFileError::NotFound)));
}

#[test]
fn two_files_for_one_page_are_ambiguous() {
    let n = names(&["page_1.png", "song.json", "page_1.pdf"]);
    match find_page_file(&n, 1) {
        Err(PageFileError::Ambiguous(found)) => assert_eq!(found, vec![0, 2]),
        _ => panic!("expected an ambiguity"),
    }
}

#[test]
fn the_same_name_twice_is_no_ambiguity() {
    let n = names(&["page_1.png", "page_1.png"]);
    assert_eq!(find_page_file(&n, 1).ok(), Some(0));
}

#[test]
fn saved_page_name_is_found_again() {
    for i in [0usize, 5, 42, 1000] {
        let n = vec!["song.json".to_string(), page_file_name(i + 1, "png"), page_file_name(i, "png")];
        assert_eq!(find_page_file(&n, i).ok(), Some(2));
    }
}
