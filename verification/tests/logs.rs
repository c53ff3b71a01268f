use systems_lab::logs::{eq_ignore_ascii_case, is_blank, table_row, LevelCounts, LogEntry};

fn sample() -> Vec<LogEntry<'static>> {
    vec![
        LogEntry { timestamp: "2024-04-06T10:00:00Z", level: "INFO", message: "Application started" },
        LogEntry { timestamp: "2024-04-06T10:01:00Z", level: "WARN", message: "Disk space low" },
        LogEntry { timestamp: "2024-04-06T10:02:00Z", level: "ERROR", message: "Database connection failed" },
        LogEntry { timestamp: "2024-04-06T10:03:00Z", level: "info", message: "User logged in" },
        LogEntry { timestamp: "2024-04-06T10:04:00Z", level: "error", message: "Fatal error" },
        LogEntry { timestamp: "2024-04-06T10:05:00Z", level: "DEBUG", message: "Cache warmed" },
    ]
}

#[test]
fn counts_levels_in_any_case() {
    let mut counts = LevelCounts::new();
    let mut shown = Vec::new();
    for entry in sample() {
        if let Some(row) = counts.record(&entry, None) {
            shown.push(row);
        }
    }
    assert_eq!((counts.info, counts.warn, counts.error), (2, 1, 2));
    assert_eq!(shown.len(), 6);
    let summary = counts.summary();
    assert!(summary.contains("Summary:"));
    assert!(summary.contains("INFO:  2"));
    assert!(summary.contains("WARN:  1"));
    assert!(summary.contains("ERROR: 2"));
    assert_eq!(summary, "\nSummary:\nINFO:  2\nWARN:  1\nERROR: 2");
    assert!(shown.iter().any(|row| row.contains("Application started")));
}

#[test]
fn filter_shows_matching_levels_only() {
    let mut counts = LevelCounts::new();
    let mut shown = Vec::new();
    for entry in sample() {
        if let Some(row) = counts.record(&entry, Some("ERROR")) {
            shown.push(row);
        }
    }
    let text = shown.join("\n");
    assert!(text.contains("Database connection failed"));
    assert!(text.contains("Fatal error"));
    assert!(!text.contains("Application started"));
    assert_eq!(shown.len(), 2);
    assert_eq!((counts.info, counts.warn, counts.error), (2, 1, 2));
}

#[test]
fn rows_are_padded_into_columns() {
    assert_eq!(
        table_row("Timestamp", "Level", "Message"),
        format!("{:<25} | {:<7} | {}", "Timestamp", "Level", "Message")
    );
    assert_eq!(
        table_row("2024-04-06T10:00:00Z", "INFO", "System started"),
        "2024-04-06T10:00:00Z      | INFO    | System started"
    );
    let long = "a timestamp longer than twenty-five characters";
    assert_eq!(table_row(long, "VERBOSE!", "m"), format!("{} | VERBOSE! | m", long));
}

#[test]
fn blank_lines_and_ascii_case() {
    assert!(is_blank(""));
    assert!(is_blank("  \t \u{3000}"));
    assert!(!is_blank("  x "));
    assert!(eq_ignore_ascii_case("error", "ERROR"));
    assert!(eq_ignore_ascii_case("WaRn", "warn"));
    assert!(!eq_ignore_ascii_case("warn", "warning"));
    assert!(!eq_ignore_ascii_case("é", "É"));
}

#[test]
fn counts_uppercase_levels_exactly() {
    let mut counts = LevelCounts::new();
    for upper in ["INFO", "WARN", "ERROR", "ERROR", "DEBUG", "info"] {
        counts.count_level(upper);
    }
    assert_eq!(counts, LevelCounts { info: 1, warn: 1, error: 2 });
}
