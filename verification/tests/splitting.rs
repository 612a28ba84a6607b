use repcon::Container;
use repcon::SourceFile;
use repcon::SplitOutcome;
use repcon::chunk_file_name;
use repcon::split_files_into_chunks;

fn text_file(path: &str, lines: Vec<&str>) -> SourceFile {
    SourceFile {
        path: path.to_string(),
        lines: lines.into_iter().map(|l| l.to_string()).collect(),
        truncated: false,
    }
}

fn rendered(containers: &Vec<Container>) -> Vec<String> {
    containers.iter().map(|c| c.render()).collect()
}

/// Lines of the given file across all containers, in emission order.
fn lines_of(outcome: &SplitOutcome, path: &str) -> Vec<String> {
    let mut lines = Vec::new();
    for container in &outcome.containers {
        for page in &container.pages {
            if page.file_path == path {
                for line in &page.lines {
                    lines.push(line.clone());
                }
            }
        }
    }
    lines
}

/// Page numbers of the given file across all containers, in emission order.
fn page_numbers_of(outcome: &SplitOutcome, path: &str) -> Vec<u64> {
    let mut numbers = Vec::new();
    for container in &outcome.containers {
        for page in &container.pages {
            if page.file_path == path {
                numbers.push(page.page_number);
            }
        }
    }
    numbers
}

fn five_small_files() -> Vec<SourceFile> {
    let mut files = Vec::new();
    for i in 0..5 {
        files.push(text_file(
            &format!("test_file_{}.txt", i),
            vec![&format!("Test data for file {}", i)],
        ));
    }
    files
}

#[test]
fn test_split_files_into_small_chunks() {
    let max_output_file_size = 200;
    let files = five_small_files();

    let outcome =
        split_files_into_chunks(&files, None, max_output_file_size, "output").unwrap();

    assert!(!outcome.containers.is_empty());
    assert_eq!(outcome.containers.len(), 5);
    for content in rendered(&outcome.containers) {
        assert!(content.contains("// START OF CODE BLOCK"));
        assert!(content.contains("// END OF CODE BLOCK"));
        assert!(content.len() as u64 <= max_output_file_size);
    }
}

#[test]
fn test_split_files_into_single_large_chunk() {
    let max_output_file_size = 3000;
    let files = five_small_files();

    let outcome =
        split_files_into_chunks(&files, None, max_output_file_size, "output").unwrap();

    assert!(!outcome.containers.is_empty());
    assert_eq!(outcome.containers.len(), 1);
    for content in rendered(&outcome.containers) {
        assert!(content.contains("// START OF CODE BLOCK"));
        assert!(content.contains("// END OF CODE BLOCK"));
        assert!(content.len() as u64 <= max_output_file_size);
    }
}

#[test]
fn test_split_files_with_insufficient_size() {
    let files = vec![text_file("test_file.txt", vec!["Test data for file"])];

    let result = split_files_into_chunks(&files, None, 10, "output");

    assert!(result.is_err());
    let error = result.err().unwrap();
    assert_eq!(error.file_path, "test_file.txt");
    assert_eq!(error.page_number, 1);
    assert_eq!(error.capacity, 10);
    assert_eq!(
        error.message(),
        "Error: The maximum file size (10) is too small to contain the page header and footer."
    );
}

#[test]
fn test_split_binary_files_error() {
    // a file whose content is not text: reading it stopped at once, so the
    // engine receives no lines and the truncated mark
    let files = vec![SourceFile {
        path: "test_file.bin".to_string(),
        lines: Vec::new(),
        truncated: true,
    }];

    let outcome = split_files_into_chunks(&files, None, 300, "output").unwrap();

    assert_eq!(outcome.containers.len(), 1);
    for content in rendered(&outcome.containers) {
        assert!(content.contains("// START OF CODE BLOCK"));
        assert!(content.contains("// END OF CODE BLOCK"));
        assert!(content.len() as u64 <= 300);
    }
    assert_eq!(outcome.unreadable, vec!["test_file.bin".to_string()]);
}

#[test]
fn test_empty_file_list_still_opens_one_container() {
    let files: Vec<SourceFile> = Vec::new();

    let outcome = split_files_into_chunks(&files, None, 100, "output").unwrap();

    assert_eq!(outcome.containers.len(), 1);
    assert_eq!(outcome.containers[0].sequence_number, 1);
    assert_eq!(outcome.containers[0].name, "output_1.txt");
    assert_eq!(outcome.containers[0].render(), "");
    assert!(outcome.unreadable.is_empty());
}

#[test]
fn test_capacity_invariant_across_rollovers() {
    // one file whose many lines must spread over several containers
    let lines: Vec<String> = (0..40).map(|i| format!("line number {}", i)).collect();
    let files = vec![SourceFile {
        path: "big.txt".to_string(),
        lines,
        truncated: false,
    }];
    let max_output_file_size = 160;

    let outcome =
        split_files_into_chunks(&files, None, max_output_file_size, "part").unwrap();

    assert!(outcome.containers.len() > 1);
    for content in rendered(&outcome.containers) {
        assert!(content.len() as u64 <= max_output_file_size);
    }
}

#[test]
fn test_coverage_every_line_once_in_order() {
    let lines: Vec<String> = (0..40).map(|i| format!("line number {}", i)).collect();
    let files = vec![
        SourceFile { path: "big.txt".to_string(), lines: lines.clone(), truncated: false },
        text_file("small.txt", vec!["alpha", "beta"]),
    ];

    let outcome = split_files_into_chunks(&files, None, 170, "part").unwrap();

    assert_eq!(lines_of(&outcome, "big.txt"), lines);
    assert_eq!(lines_of(&outcome, "small.txt"), vec!["alpha", "beta"]);
    // the rendered containers hold each line exactly once
    let all_text: String = rendered(&outcome.containers).concat();
    assert_eq!(all_text.matches("line number 7\n").count(), 1);
    assert_eq!(all_text.matches("alpha\n").count(), 1);
}

#[test]
fn test_framing_pairing_in_rendered_text() {
    let lines: Vec<String> = (0..40).map(|i| format!("line number {}", i)).collect();
    let files = vec![
        SourceFile { path: "big.txt".to_string(), lines, truncated: false },
        text_file("small.txt", vec!["alpha"]),
    ];

    let outcome = split_files_into_chunks(&files, None, 170, "part").unwrap();

    for container in &outcome.containers {
        let content = container.render();
        let starts = content.matches("// START OF CODE BLOCK: ").count();
        let ends = content.matches("// END OF CODE BLOCK: ").count();
        // every header has its footer in the same container
        assert_eq!(starts, container.pages.len());
        assert_eq!(ends, container.pages.len());
    }
}

#[test]
fn test_page_numbers_contiguous_from_one() {
    let lines: Vec<String> = (0..40).map(|i| format!("line number {}", i)).collect();
    let files = vec![
        SourceFile { path: "big.txt".to_string(), lines, truncated: false },
        text_file("small.txt", vec!["alpha"]),
    ];

    let outcome = split_files_into_chunks(&files, None, 170, "part").unwrap();

    let numbers = page_numbers_of(&outcome, "big.txt");
    assert!(numbers.len() > 1);
    let expected: Vec<u64> = (1..=numbers.len() as u64).collect();
    assert_eq!(numbers, expected);
    // numbering is per file: the next file starts at 1 again
    assert_eq!(page_numbers_of(&outcome, "small.txt"), vec![1]);
}

#[test]
fn test_rerun_names_identical() {
    let files = five_small_files();

    let first = split_files_into_chunks(&files, None, 200, "output").unwrap();
    let second = split_files_into_chunks(&files, None, 200, "output").unwrap();

    let first_names: Vec<String> = first.containers.iter().map(|c| c.name.clone()).collect();
    let second_names: Vec<String> = second.containers.iter().map(|c| c.name.clone()).collect();
    assert_eq!(first_names, second_names);
    for (j, name) in first_names.iter().enumerate() {
        assert_eq!(name, &format!("output_{}.txt", j + 1));
    }
}

#[test]
fn test_root_is_stripped_from_identifiers() {
    let files = vec![text_file("/repo/src/lib.rs", vec!["fn main() {}"])];

    let outcome = split_files_into_chunks(&files, Some("/repo"), 1000, "out").unwrap();

    let content = outcome.containers[0].render();
    assert!(content.contains("# repcon_file_name: src/lib.rs\n"));
    assert!(content.contains("// END OF CODE BLOCK: src/lib.rs\n\n"));
}

#[test]
fn test_truncated_file_keeps_partial_body_and_frame() {
    let files = vec![
        SourceFile {
            path: "partly.bin".to_string(),
            lines: vec!["readable start".to_string()],
            truncated: true,
        },
        text_file("after.txt", vec!["still processed"]),
    ];

    let outcome = split_files_into_chunks(&files, None, 1000, "out").unwrap();

    let content = outcome.containers[0].render();
    assert!(content.contains("readable start\n"));
    assert!(content.contains("// END OF CODE BLOCK: partly.bin\n\n"));
    // the run went on with the next file and reported the bad one
    assert!(content.contains("still processed\n"));
    assert_eq!(outcome.unreadable, vec!["partly.bin".to_string()]);
}

#[test]
fn test_rendered_container_exact() {
    let files = vec![text_file("a.txt", vec!["hello", "world"])];

    let outcome = split_files_into_chunks(&files, None, 1000, "out").unwrap();

    assert_eq!(outcome.containers.len(), 1);
    assert_eq!(
        outcome.containers[0].render(),
        "# repcon_file_name: a.txt\n\
         # repcon_page_number: 1\n\
         // START OF CODE BLOCK: a.txt\n\
         hello\n\
         world\n\
         // END OF CODE BLOCK: a.txt\n\n"
    );
}

#[test]
fn test_chunk_file_name_exact() {
    assert_eq!(chunk_file_name("output", 1), "output_1.txt");
    assert_eq!(chunk_file_name("custom", 42), "custom_42.txt");
}
