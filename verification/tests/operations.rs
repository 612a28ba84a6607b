use repcon::PageFormat;
use repcon::check_max_output_file_size;
use repcon::check_size_limits;
use repcon::resolve_api_key;
use repcon::to_relative_path;
use repcon::total_file_size;

#[test]
fn test_check_size_limits_boundary() {
    assert!(check_size_limits(100, 100).is_ok());
    assert!(check_size_limits(0, 0).is_ok());
    let error = check_size_limits(101, 100).err().unwrap();
    assert_eq!(error.total_size, 101);
    assert_eq!(error.total_allowed_size, 100);
    assert_eq!(
        error.message(),
        "Error: The total size of the files (101) exceeds the allowed limit of 100 bytes."
    );
}

#[test]
fn test_total_file_size_sums() {
    assert_eq!(total_file_size(&vec![]), Some(0));
    assert_eq!(total_file_size(&vec![1, 2, 3]), Some(6));
    assert_eq!(total_file_size(&vec![u64::MAX, 0]), Some(u64::MAX));
    assert_eq!(total_file_size(&vec![u64::MAX, 1]), None);
    assert_eq!(total_file_size(&vec![u64::MAX / 2, u64::MAX / 2, 3]), None);
}

#[test]
fn test_free_to_relative_path_matches_method() {
    assert_eq!(to_relative_path("/repo", "/repo/a/b.rs"), "a/b.rs");
    assert_eq!(
        to_relative_path("/x", "/repo/a/b.rs"),
        PageFormat::to_relative_path("/x", "/repo/a/b.rs")
    );
}

#[test]
fn test_check_max_output_file_size_boundary() {
    let page_format = PageFormat::new("a.txt".to_string(), None);
    let frame = page_format.header_size + page_format.footer_size;
    assert!(check_max_output_file_size(&page_format, frame).is_ok());
    let error = check_max_output_file_size(&page_format, frame - 1).err().unwrap();
    assert_eq!(error.file_path, "a.txt");
    assert_eq!(error.page_number, 1);
    assert_eq!(error.capacity, frame - 1);
}

#[test]
fn test_resolve_api_key_decision() {
    // no upload option: no upload, no key needed
    let decided = resolve_api_key(&None, Some("env-key".to_string())).unwrap();
    assert!(decided.is_none());

    // an explicit key wins over the environment
    let decided = resolve_api_key(
        &Some(Some("given-key".to_string())),
        Some("env-key".to_string()),
    )
    .unwrap();
    assert_eq!(decided, Some("given-key".to_string()));

    // the bare flag falls back to the environment
    let decided = resolve_api_key(&Some(None), Some("env-key".to_string())).unwrap();
    assert_eq!(decided, Some("env-key".to_string()));

    // the bare flag with an empty environment fails
    let error = resolve_api_key(&Some(None), None).err().unwrap();
    assert_eq!(
        error.message(),
        "API key not specified and not found in environment."
    );
}
