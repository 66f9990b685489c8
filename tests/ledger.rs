use podcast_fetch::config::entry_now;
use podcast_fetch::ledger::{entry_line, ledger_header, parse_entry_line, Ledger};

#[test]
fn load_reads_entry_lines() {
    let text = format!("{}\n20240101120000 //x/a.mp3\n20240102120000 //x/b.mp3\n", ledger_header());
    let ledger = Ledger::load(&text);
    assert!(ledger.contains("//x/a.mp3"));
    assert!(ledger.contains("//x/b.mp3"));
    assert!(!ledger.contains("//x/c.mp3"));
}

#[test]
fn load_matches_whole_references_only() {
    let ledger = Ledger::load("20240101120000 //x/episode10.mp3\n");
    assert!(ledger.contains("//x/episode10.mp3"));
    assert!(!ledger.contains("//x/episode1"));
    assert!(!ledger.contains("episode10.mp3"));
}

#[test]
fn header_records_nothing() {
    let ledger = Ledger::load(&ledger_header());
    assert!(!ledger.contains("Podcast Downloader"));
    assert!(!ledger.contains("Generate Podcast Downloader"));
    assert!(!ledger.contains(""));
}

#[test]
fn last_line_without_newline_counts() {
    let ledger = Ledger::load("1 a\n2 b");
    assert!(ledger.contains("a"));
    assert!(ledger.contains("b"));
}

#[test]
fn header_text() {
    let expected = format!("Generate Podcast Downloader\n{}", "-".repeat(40));
    assert_eq!(ledger_header(), expected);
}

#[test]
fn entry_line_format() {
    assert_eq!(entry_line("20240101120000", "//x/a.mp3"), Some("20240101120000 //x/a.mp3".to_string()));
    assert_eq!(entry_line("2024a", "//x/a.mp3"), None);
    assert_eq!(entry_line("", "//x/a.mp3"), None);
    assert_eq!(entry_line("1", ""), None);
    assert_eq!(entry_line("1", "a\nb"), None);
}

#[test]
fn parse_entry_lines() {
    assert_eq!(parse_entry_line("20240101120000 //x/a.mp3"), Some("//x/a.mp3".to_string()));
    assert_eq!(parse_entry_line("1 a b"), Some("a b".to_string()));
    assert_eq!(parse_entry_line("Generate Podcast Downloader"), None);
    assert_eq!(parse_entry_line("----------"), None);
    assert_eq!(parse_entry_line("123 "), None);
    assert_eq!(parse_entry_line(" abc"), None);
}

#[test]
fn recorded_entry_is_found_after_reload() {
    let line = entry_now("//x/a.mp3").expect("the clock gives a digit stamp");
    let (stamp, rest) = line.split_once(' ').unwrap();
    assert!(!stamp.is_empty() && stamp.chars().all(|c| c.is_ascii_digit()));
    assert_eq!(rest, "//x/a.mp3");
    let text = format!("{}\n{}\n", ledger_header(), line);
    assert!(Ledger::load(&text).contains("//x/a.mp3"));
    assert_eq!(entry_now("a\nb"), None);
}

#[test]
fn insert_then_contains() {
    let mut ledger = Ledger::new();
    assert!(!ledger.contains("r"));
    ledger.insert("r");
    ledger.insert("r");
    assert!(ledger.contains("r"));
    assert!(!ledger.contains("s"));
}
