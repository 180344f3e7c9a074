use top_files::engine::scan;
use top_files::entry::FileEntry;
use top_files::options::{parse_count, AppError, Options};
use top_files::report::{dec_string, entry_line, heading_line, report_lines, summary_line};

fn entry(path: &str, size: u64) -> FileEntry {
    FileEntry { path: String::from(path), size }
}

#[test]
fn five_files_top_two() {
    let entries = vec![
        entry("a", 10),
        entry("b", 5),
        entry("c", 100),
        entry("d", 100),
        entry("e", 1),
    ];
    let (counters, tops) = scan(&entries, 2);
    assert_eq!(counters.total_file_count, 5);
    assert_eq!(counters.total_size_bytes, 216);
    assert_eq!(tops.len(), 2);
    assert_eq!(tops[0].size, 100);
    assert_eq!(tops[1].size, 100);
    let mut paths = vec![tops[0].path.clone(), tops[1].path.clone()];
    paths.sort();
    assert_eq!(paths, vec![String::from("c"), String::from("d")]);
}

#[test]
fn empty_root() {
    let entries: Vec<FileEntry> = Vec::new();
    let (counters, tops) = scan(&entries, 5);
    assert_eq!(counters.total_file_count, 0);
    assert_eq!(counters.total_size_bytes, 0);
    assert!(tops.is_empty());
}

#[test]
fn zero_bound_counts_but_retains_nothing() {
    let entries = vec![entry("a", 3), entry("b", 7)];
    let (counters, tops) = scan(&entries, 0);
    assert_eq!(counters.total_file_count, 2);
    assert_eq!(counters.total_size_bytes, 10);
    assert!(tops.is_empty());
}

#[test]
fn tops_sorted_descending() {
    let entries = vec![
        entry("a", 8),
        entry("b", 64),
        entry("c", 1),
        entry("d", 32),
        entry("e", 16),
        entry("f", 2),
    ];
    let (counters, tops) = scan(&entries, 4);
    assert_eq!(counters.total_file_count, 6);
    assert_eq!(counters.total_size_bytes, 123);
    let sizes: Vec<u64> = tops.iter().map(|e| e.size).collect();
    assert_eq!(sizes, vec![64, 32, 16, 8]);
}

#[test]
fn equal_sizes_keep_discovery_order() {
    let entries = vec![entry("a", 5), entry("b", 5), entry("c", 5)];
    let (_, tops) = scan(&entries, 2);
    assert_eq!(tops.len(), 2);
    assert_eq!(tops[0].path, "a");
    assert_eq!(tops[1].path, "b");
}

#[test]
fn bound_larger_than_stream_keeps_everything() {
    let entries = vec![entry("a", 1), entry("b", 2)];
    let (_, tops) = scan(&entries, 10);
    assert_eq!(tops.len(), 2);
    assert_eq!(tops[0].size, 2);
    assert_eq!(tops[1].size, 1);
}

#[test]
fn scanning_twice_gives_identical_reports() {
    let entries = vec![entry("a", 10), entry("b", 20), entry("c", 20), entry("d", 1)];
    let (counters1, tops1) = scan(&entries, 2);
    let (counters2, tops2) = scan(&entries, 2);
    assert_eq!(counters1, counters2);
    let paths1: Vec<&String> = tops1.iter().map(|e| &e.path).collect();
    let paths2: Vec<&String> = tops2.iter().map(|e| &e.path).collect();
    assert_eq!(paths1, paths2);
    let sizes1: Vec<u64> = tops1.iter().map(|e| e.size).collect();
    let sizes2: Vec<u64> = tops2.iter().map(|e| e.size).collect();
    assert_eq!(sizes1, sizes2);
}

#[test]
fn missing_argument_means_default() {
    let options = Options::from_arg(None).unwrap();
    assert_eq!(options.top_n, 5);
}

#[test]
fn numeric_argument_is_taken() {
    assert_eq!(Options::from_arg(Some("7")).unwrap().top_n, 7);
    assert_eq!(Options::from_arg(Some("0")).unwrap().top_n, 0);
    assert_eq!(Options::from_arg(Some("+12")).unwrap().top_n, 12);
}

#[test]
fn bad_argument_is_rejected() {
    let err = Options::from_arg(Some("abc")).unwrap_err();
    assert_eq!(err, AppError::InvalidCount(String::from("abc")));
    assert_eq!(err.message(), "invalid count: abc");
}

#[test]
fn empty_and_sign_only_arguments_are_rejected() {
    assert!(Options::from_arg(Some("")).is_err());
    assert!(Options::from_arg(Some("+")).is_err());
    assert!(Options::from_arg(Some("-3")).is_err());
    assert!(Options::from_arg(Some("1 2")).is_err());
}

#[test]
fn oversized_argument_is_rejected() {
    let err = Options::from_arg(Some("99999999999999999999999999")).unwrap_err();
    assert_eq!(
        err,
        AppError::InvalidCount(String::from("99999999999999999999999999"))
    );
}

#[test]
fn count_parsing() {
    assert_eq!(parse_count("42"), Some(42));
    assert_eq!(parse_count("007"), Some(7));
    assert_eq!(parse_count("abc"), None);
    assert_eq!(parse_count("12a"), None);
    assert_eq!(parse_count(""), None);
}

#[test]
fn empty_report_has_only_summary_and_heading() {
    let entries: Vec<FileEntry> = Vec::new();
    let (counters, tops) = scan(&entries, 5);
    let lines = report_lines(&counters, &tops);
    assert_eq!(
        lines,
        vec![
            String::from("Number of files 0, total Size: 0"),
            String::from("Top 0, Biggest files:"),
        ]
    );
}

#[test]
fn decimal_rendering() {
    assert_eq!(dec_string(0), "0");
    assert_eq!(dec_string(7), "7");
    assert_eq!(dec_string(216), "216");
    assert_eq!(dec_string(1234567890), "1234567890");
}

#[test]
fn summary_line_small_total() {
    let entries = vec![entry("a", 10), entry("b", 206)];
    let (counters, _) = scan(&entries, 5);
    assert_eq!(
        summary_line(&counters),
        "Number of files 2, total Size: 216"
    );
}

#[test]
fn summary_line_scaled_total() {
    let entries = vec![entry("a", 12345)];
    let (counters, _) = scan(&entries, 5);
    assert_eq!(summary_line(&counters), "Number of files 1, total Size: 12K");
}

#[test]
fn entry_line_pads_the_size_column() {
    assert_eq!(entry_line(&entry("a", 100)), "100  - a");
    assert_eq!(entry_line(&entry("some/long/path", 9999)), "9999 - some/long/path");
    assert_eq!(entry_line(&entry("b", 999999)), "1.0M - b");
}

#[test]
fn heading_line_counts_retained() {
    assert_eq!(heading_line(2), "Top 2, Biggest files:");
}

#[test]
fn whole_report() {
    let entries = vec![
        entry("a", 10),
        entry("b", 5),
        entry("c", 100),
        entry("d", 100),
        entry("e", 1),
    ];
    let (counters, tops) = scan(&entries, 2);
    let lines = report_lines(&counters, &tops);
    assert_eq!(
        lines,
        vec![
            String::from("Number of files 5, total Size: 216"),
            String::from("Top 2, Biggest files:"),
            String::from("100  - c"),
            String::from("100  - d"),
        ]
    );
}
