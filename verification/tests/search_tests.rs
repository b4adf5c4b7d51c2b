use file_archive::search::{find_all, scan_chunks, snippet_at, Scanner};

fn offsets(data: &[u8], term: &[u8]) -> Vec<usize> {
    find_all(&data.to_vec(), &term.to_vec())
}

#[test]
fn one_pass_finds_case_insensitive_offsets() {
    assert_eq!(offsets(b"the quick brown fox", b"quick"), vec![4]);
    assert_eq!(offsets(b"a QUICK fox jumps", b"quick"), vec![2]);
    assert_eq!(offsets(b"aAaA", b"aa"), vec![0, 1, 2]);
    assert_eq!(offsets(b"abc", b"z"), Vec::<usize>::new());
    assert_eq!(offsets(b"", b"z"), Vec::<usize>::new());
    assert_eq!(offsets(b"ab", b"abc"), Vec::<usize>::new());
}

#[test]
fn windowed_scan_matches_one_pass() {
    let data = b"Fox fox FOX foXfOx xof ffox".to_vec();
    let term = b"fox".to_vec();
    let reference: Vec<u64> = find_all(&data, &term).into_iter().map(|o| o as u64).collect();
    for cap in [3usize, 4, 5, 7, 100] {
        for step in [1usize, 2, 3, 4, 5, 19, 100] {
            let got = scan_chunks(&data, &term, cap, step);
            assert_eq!(got, reference, "cap {} step {}", cap, step);
        }
    }
}

#[test]
fn match_straddling_window_boundary_is_found() {
    // With a window of term length + 1 and reads of the same size, the only
    // occurrence straddles the boundary between the first and second read.
    let data = b"xxxabcxx".to_vec();
    let term = b"abc".to_vec();
    let got = scan_chunks(&data, &term, 4, 4);
    assert_eq!(got, vec![3]);
}

#[test]
fn boundary_match_is_reported_exactly_once() {
    // The occurrence lies entirely inside the carry region of the second
    // window; it must still be reported only once.
    let data = b"ababab".to_vec();
    let term = b"ab".to_vec();
    for step in 1..=6usize {
        let got = scan_chunks(&data, &term, 2, step);
        assert_eq!(got, vec![0, 2, 4], "step {}", step);
    }
}

#[test]
fn scanner_reports_absolute_offsets_across_chunks() {
    let term = b"needle".to_vec();
    let mut scanner = Scanner::new(&term, 6);
    let first = scanner.feed(&b"hay nee".to_vec());
    assert!(first.is_empty());
    let second = scanner.feed(&b"dle hay".to_vec());
    assert_eq!(second.len(), 1);
    assert_eq!(second[0].offset, 4);
    assert_eq!(second[0].snippet, b"needle hay".to_vec());
    let third = scanner.feed(&b" NEEDLE".to_vec());
    assert_eq!(third.len(), 1);
    assert_eq!(third[0].offset, 15);
    assert_eq!(third[0].snippet, b"NEEDLE".to_vec());
}

#[test]
fn snippet_takes_context_and_strips_line_breaks() {
    let window = b"the quick\r\nbrown fox".to_vec();
    // Occurrence of a five-byte term at offset 4 with ten bytes of context.
    let snip = snippet_at(&window, 4, 5);
    assert_eq!(snip, b"quickbrown fo".to_vec());
    // Clipped at the end of the window.
    let snip2 = snippet_at(&window, 17, 3);
    assert_eq!(snip2, b"fox".to_vec());
}
