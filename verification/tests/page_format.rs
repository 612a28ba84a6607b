use repcon::PageFormat;
use repcon::u64_to_string;

#[test]
fn test_page_format_new() {
    let file_path = "test_file.rs";
    let page_format = PageFormat::new(file_path.to_string(), None);

    assert_eq!(page_format.file_path, file_path);
    assert!(!page_format.header.is_empty());
    assert!(!page_format.footer.is_empty());
}

#[test]
fn test_page_format_increment_page_number() {
    let mut page_format = PageFormat::new("test_file.rs".to_string(), None);
    let initial_page_number = page_format.page_nubmer;

    page_format.increment_page_number();

    assert_eq!(page_format.page_nubmer, initial_page_number + 1);
}

#[test]
fn test_create_page_header_exact() {
    let header = PageFormat::create_page_header("src/lib.rs", 3);
    assert_eq!(
        header,
        "# repcon_file_name: src/lib.rs\n# repcon_page_number: 3\n// START OF CODE BLOCK: src/lib.rs\n"
    );
}

#[test]
fn test_create_page_footer_exact() {
    let footer = PageFormat::create_page_footer("src/lib.rs");
    assert_eq!(footer, "// END OF CODE BLOCK: src/lib.rs\n\n");
}

#[test]
fn test_sizes_match_rendered_bytes() {
    let page_format = PageFormat::new("a.txt".to_string(), None);
    assert_eq!(page_format.header_size, 80);
    assert_eq!(page_format.footer_size, 29);
    assert_eq!(page_format.header_size, page_format.header.as_bytes().len() as u64);
    assert_eq!(page_format.footer_size, page_format.footer.as_bytes().len() as u64);
    assert_eq!(page_format.get_page_header_size(), page_format.header_size);
    assert_eq!(page_format.get_page_footer_size(), page_format.footer_size);
}

#[test]
fn test_increment_rerenders_frame() {
    let mut page_format = PageFormat::new("a.txt".to_string(), None);
    let first_header = page_format.header.clone();
    let first_size = page_format.header_size;
    for _ in 0..9 {
        page_format.increment_page_number();
    }
    // page 10 takes one more decimal digit than page 1
    assert_eq!(page_format.page_nubmer, 10);
    assert_eq!(page_format.header_size, first_size + 1);
    assert!(page_format.header.contains("# repcon_page_number: 10\n"));
    assert_ne!(page_format.header, first_header);
    // the footer does not depend on the page number
    assert_eq!(page_format.footer, PageFormat::create_page_footer("a.txt"));
}

#[test]
fn test_new_with_root_renders_relative() {
    let page_format = PageFormat::new("/repo/src/main.rs".to_string(), Some("/repo"));
    assert_eq!(page_format.file_path, "src/main.rs");
    assert!(page_format.header.contains("# repcon_file_name: src/main.rs\n"));
}

#[test]
fn test_to_relative_path_cases() {
    assert_eq!(PageFormat::to_relative_path("/repo", "/repo/src/main.rs"), "src/main.rs");
    assert_eq!(PageFormat::to_relative_path("/repo/", "/repo/src/main.rs"), "src/main.rs");
    assert_eq!(PageFormat::to_relative_path("/repo", "/repo"), "");
    assert_eq!(PageFormat::to_relative_path("/other", "/repo/src/main.rs"), "/repo/src/main.rs");
    // a mere string prefix that is no directory boundary is left alone
    assert_eq!(PageFormat::to_relative_path("/repo", "/repository/a.rs"), "/repository/a.rs");
    assert_eq!(PageFormat::to_relative_path("", "src/main.rs"), "src/main.rs");
}

#[test]
fn test_u64_to_string_exact() {
    assert_eq!(u64_to_string(0), "0");
    assert_eq!(u64_to_string(7), "7");
    assert_eq!(u64_to_string(1234567890), "1234567890");
    assert_eq!(u64_to_string(u64::MAX), "18446744073709551615");
}
