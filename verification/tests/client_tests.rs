use file_archive::client::{u64_to_string, FileState, SearchState};
use file_archive::events::{render, Event};

fn file(name: &str, size: u64, read: u64, occ: &[&str]) -> FileState {
    FileState {
        name: name.to_string(),
        size,
        bytes_read: read,
        occurrences: occ.iter().map(|s| s.to_string()).collect(),
    }
}

#[test]
fn fresh_state_is_empty() {
    let s = SearchState::new();
    assert!(s.files.is_empty());
    assert_eq!(s.progress, "0.0".to_string());
    assert_eq!(s.last_update_lines, 0);
}

#[test]
fn progress_string_tracks_totals() {
    let mut s = SearchState::new();
    s.files.push(file("a", 100, 50, &[]));
    s.files.push(file("b", 100, 25, &[]));
    s.update_progress();
    assert_eq!(s.progress, "37.50000".to_string());
    s.files[1].bytes_read = 100;
    s.update_progress();
    assert_eq!(s.progress, "75.00000".to_string());
}

#[test]
fn progress_without_sizes_stays_zero() {
    let mut s = SearchState::new();
    s.update_progress();
    assert_eq!(s.progress, "0.00000".to_string());
}

#[test]
fn progress_is_clamped_at_full() {
    let mut s = SearchState::new();
    s.files.push(file("a", 10, 25, &[]));
    s.update_progress();
    assert_eq!(s.progress, "100.00000".to_string());
}

#[test]
fn occurrence_lands_on_the_named_file() {
    let mut s = SearchState::new();
    s.files.push(file("a.txt", 10, 0, &[]));
    s.files.push(file("b.txt", 10, 0, &[]));
    s.add_occurrence("b.txt", "4", "snippet text");
    assert!(s.files[0].occurrences.is_empty());
    assert_eq!(s.files[1].occurrences, vec!["4 - snippet text".to_string()]);
    // A report for an unannounced file changes nothing.
    s.add_occurrence("c.txt", "9", "x");
    assert!(s.files[0].occurrences.is_empty());
    assert_eq!(s.files[1].occurrences.len(), 1);
}

#[test]
fn sorting_orders_by_occurrence_count() {
    let mut s = SearchState::new();
    s.files.push(file("one", 1, 0, &["x"]));
    s.files.push(file("three", 1, 0, &["x", "y", "z"]));
    s.files.push(file("two", 1, 0, &["x", "y"]));
    s.sort_occ();
    let names: Vec<&str> = s.files.iter().map(|f| f.name.as_str()).collect();
    assert_eq!(names, vec!["three", "two", "one"]);
}

#[test]
fn counters_render_in_decimal() {
    assert_eq!(u64_to_string(0), "0".to_string());
    assert_eq!(u64_to_string(907), "907".to_string());
    assert_eq!(u64_to_string(u64::MAX), "18446744073709551615".to_string());
}

#[test]
fn every_event_renders_its_wire_payload() {
    let found_in = Event::FoundIn { path: b"a.txt".to_vec() };
    assert_eq!(render(&found_in), b"found_in: a.txt".to_vec());
    let found = Event::Found { path: b"a.txt".to_vec(), offset: 4, snippet: b"quick brown fox".to_vec() };
    assert_eq!(render(&found), b"found: a.txt, 4, quick brown fox".to_vec());
    let update = Event::Update { scaled_percent: 1_234_567 };
    assert_eq!(render(&update), b"update: 12.34567".to_vec());
    let done = Event::Done { elapsed_ms: 42 };
    assert_eq!(render(&done), b"done: 42".to_vec());
    let entry = Event::FileEntry { name: b"b.txt".to_vec() };
    assert_eq!(render(&entry), b"file: b.txt".to_vec());
    assert_eq!(render(&Event::ListDone), b"done:".to_vec());
    let err = Event::ErrorMsg { text: b"boom".to_vec() };
    assert_eq!(render(&err), b"error: boom".to_vec());
}
