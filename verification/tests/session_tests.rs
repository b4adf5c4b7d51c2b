use file_archive::events::{render, Event};
use file_archive::session::{dispatch, delete_reply, list_events, window_size, SearchSession, SCAN_FLOOR};
use file_archive::store::StoreError;
use file_archive::wire::Command;

fn corpus(files: &[(&[u8], u64)]) -> Vec<(Vec<u8>, u64)> {
    files.iter().map(|(n, s)| (n.to_vec(), *s)).collect()
}

#[test]
fn window_size_covers_term_and_floor() {
    assert_eq!(window_size(1), SCAN_FLOOR);
    assert_eq!(window_size(SCAN_FLOOR), SCAN_FLOOR);
    assert_eq!(window_size(SCAN_FLOOR + 9), SCAN_FLOOR + 9);
}

#[test]
fn dispatch_routes_or_refuses() {
    assert!(matches!(dispatch(1), Ok(Command::Upload)));
    assert!(matches!(dispatch(2), Ok(Command::Search)));
    assert!(matches!(dispatch(3), Ok(Command::Delete)));
    assert!(matches!(dispatch(4), Ok(Command::List)));
    match dispatch(9) {
        Err(e) => assert_eq!(e.text(), b"Invalid command".to_vec()),
        Ok(_) => panic!("byte 9 names no command"),
    }
}

#[test]
fn delete_reply_acks_or_reports() {
    assert!(delete_reply(&Ok(())).is_none());
    let ev = delete_reply(&Err(StoreError::NotFound)).expect("error event");
    assert_eq!(render(&ev), b"error: no such file".to_vec());
}

#[test]
fn list_session_sends_entries_then_done() {
    let entries = vec![
        (b"a.txt".to_vec(), b"./files/a.txt".to_vec()),
        (b"b.txt".to_vec(), b"./files/b.txt".to_vec()),
    ];
    let evs = list_events(&entries);
    assert_eq!(evs.len(), 3);
    assert_eq!(render(&evs[0]), b"file: a.txt".to_vec());
    assert_eq!(render(&evs[1]), b"file: b.txt".to_vec());
    assert_eq!(render(&evs[2]), b"done:".to_vec());
}

#[test]
fn empty_term_is_rejected() {
    let c = corpus(&[(b"a.txt", 3)]);
    assert!(SearchSession::new(&Vec::new(), &c, 200, 0).is_none());
}

#[test]
fn search_scenario_reports_both_files() {
    let a = b"the quick brown fox".to_vec();
    let b = b"a QUICK fox jumps".to_vec();
    let c = corpus(&[(b"a.txt", a.len() as u64), (b"b.txt", b.len() as u64)]);
    let mut s = SearchSession::new(&b"quick".to_vec(), &c, 1_000_000, 0).expect("session");

    let mut fa = s.begin_file(&b"a.txt".to_vec());
    let evs_a = s.feed_file(&mut fa, &a, 1);
    assert_eq!(evs_a.len(), 2);
    assert_eq!(render(&evs_a[0]), b"found_in: a.txt".to_vec());
    assert_eq!(render(&evs_a[1]), b"found: a.txt, 4, quick brown fox".to_vec());

    let mut fb = s.begin_file(&b"b.txt".to_vec());
    let evs_b = s.feed_file(&mut fb, &b, 2);
    assert_eq!(evs_b.len(), 2);
    assert_eq!(render(&evs_b[0]), b"found_in: b.txt".to_vec());
    assert_eq!(render(&evs_b[1]), b"found: b.txt, 2, QUICK fox jumps".to_vec());

    let done = s.finish(5);
    assert_eq!(render(&done), b"done: 5".to_vec());
}

#[test]
fn empty_corpus_is_immediately_done() {
    let c = corpus(&[]);
    let s = SearchSession::new(&b"anything".to_vec(), &c, 200, 0).expect("session");
    // No files: nothing to scan, no found or found_in events; the terminal
    // event follows at once.
    let done = s.finish(0);
    assert_eq!(render(&done), b"done: 0".to_vec());
}

#[test]
fn file_without_match_is_never_announced() {
    let data = b"nothing to see".to_vec();
    let c = corpus(&[(b"n.txt", data.len() as u64)]);
    let mut s = SearchSession::new(&b"quick".to_vec(), &c, 1_000_000, 0).expect("session");
    let mut f = s.begin_file(&b"n.txt".to_vec());
    let evs = s.feed_file(&mut f, &data, 1);
    assert!(evs.is_empty());
}

#[test]
fn updates_are_throttled_and_monotone() {
    let a = vec![b'x'; 40];
    let c = corpus(&[(b"x.bin", 40)]);
    let mut s = SearchSession::new(&b"zz".to_vec(), &c, 100, 0).expect("session");
    let mut f = s.begin_file(&b"x.bin".to_vec());

    // First chunk: a full interval has elapsed, so one update is due.
    let evs1 = s.feed_file(&mut f, &a[0..10].to_vec(), 100);
    assert_eq!(evs1.len(), 1);
    match &evs1[0] {
        Event::Update { scaled_percent } => assert_eq!(*scaled_percent, 2_500_000),
        _ => panic!("expected an update event"),
    }
    assert_eq!(render(&evs1[0]), b"update: 25.00000".to_vec());

    // A burst of chunks right after stays silent, however much arrives.
    let evs2 = s.feed_file(&mut f, &a[10..20].to_vec(), 150);
    assert!(evs2.is_empty());
    let evs3 = s.feed_file(&mut f, &a[20..30].to_vec(), 199);
    assert!(evs3.is_empty());

    // The next interval boundary releases one update, with larger progress.
    let evs4 = s.feed_file(&mut f, &a[30..40].to_vec(), 205);
    assert_eq!(evs4.len(), 1);
    assert_eq!(render(&evs4[0]), b"update: 100.00000".to_vec());
}

#[test]
fn one_feed_orders_announcement_matches_update() {
    let data = b"ax ax".to_vec();
    let c = corpus(&[(b"f.txt", 5)]);
    let mut s = SearchSession::new(&b"ax".to_vec(), &c, 0, 0).expect("session");
    let mut f = s.begin_file(&b"f.txt".to_vec());
    let evs = s.feed_file(&mut f, &data, 1);
    assert_eq!(evs.len(), 4);
    assert_eq!(render(&evs[0]), b"found_in: f.txt".to_vec());
    assert_eq!(render(&evs[1]), b"found: f.txt, 0, ax ax".to_vec());
    assert_eq!(render(&evs[2]), b"found: f.txt, 3, ax".to_vec());
    assert_eq!(render(&evs[3]), b"update: 100.00000".to_vec());
}

#[test]
fn match_across_feed_boundary_has_absolute_offset() {
    let c = corpus(&[(b"s.txt", 12)]);
    let mut s = SearchSession::new(&b"AbCd".to_vec(), &c, 1_000_000, 0).expect("session");
    let mut f = s.begin_file(&b"s.txt".to_vec());
    let evs1 = s.feed_file(&mut f, &b"xxxxxab".to_vec(), 1);
    assert!(evs1.is_empty());
    let evs2 = s.feed_file(&mut f, &b"cdxxx".to_vec(), 2);
    assert_eq!(evs2.len(), 2);
    assert_eq!(render(&evs2[0]), b"found_in: s.txt".to_vec());
    assert_eq!(render(&evs2[1]), b"found: s.txt, 5, abcdxxx".to_vec());
}
