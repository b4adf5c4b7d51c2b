use file_archive::progress::{progress_scaled, render_percent, Throttle, PERCENT_UNIT};
use file_archive::text::{bytes_eq, concat_bytes, dec_u64, dec_u64_pad, lower_bytes, strip_crlf};

#[test]
fn lowercasing_touches_only_ascii_letters() {
    let s = b"MiXeD 123 \xC3\x84z!".to_vec();
    assert_eq!(lower_bytes(&s), b"mixed 123 \xC3\x84z!".to_vec());
}

#[test]
fn decimal_rendering_is_exact() {
    assert_eq!(dec_u64(0), b"0".to_vec());
    assert_eq!(dec_u64(7), b"7".to_vec());
    assert_eq!(dec_u64(10), b"10".to_vec());
    assert_eq!(dec_u64(1234567890123), b"1234567890123".to_vec());
    assert_eq!(dec_u64(u64::MAX), b"18446744073709551615".to_vec());
}

#[test]
fn padded_rendering_keeps_width() {
    assert_eq!(dec_u64_pad(7, 5), b"00007".to_vec());
    assert_eq!(dec_u64_pad(0, 5), b"00000".to_vec());
    assert_eq!(dec_u64_pad(99999, 5), b"99999".to_vec());
    assert_eq!(dec_u64_pad(123456, 5), b"23456".to_vec());
}

#[test]
fn strip_removes_line_breaks_only() {
    assert_eq!(strip_crlf(&b"a\r\nb\nc\rd".to_vec()), b"abcd".to_vec());
    assert_eq!(strip_crlf(&b"plain".to_vec()), b"plain".to_vec());
    assert_eq!(strip_crlf(&b"".to_vec()), b"".to_vec());
}

#[test]
fn byte_helpers_behave() {
    assert!(bytes_eq(&b"abc".to_vec(), &b"abc".to_vec()));
    assert!(!bytes_eq(&b"abc".to_vec(), &b"abd".to_vec()));
    assert!(!bytes_eq(&b"abc".to_vec(), &b"ab".to_vec()));
    assert_eq!(concat_bytes(&b"ab".to_vec(), &b"cd".to_vec()), b"abcd".to_vec());
}

#[test]
fn progress_scaling_is_exact() {
    assert_eq!(progress_scaled(0, 100), 0);
    assert_eq!(progress_scaled(50, 100), 50 * PERCENT_UNIT);
    assert_eq!(progress_scaled(100, 100), 100 * PERCENT_UNIT);
    assert_eq!(progress_scaled(1, 3), 3333333);
    assert_eq!(progress_scaled(u64::MAX, u64::MAX), 100 * PERCENT_UNIT);
}

#[test]
fn progress_never_decreases_and_never_passes_full() {
    let total = 977u64;
    let mut last = 0u64;
    for done in 0..=total {
        let p = progress_scaled(done, total);
        assert!(p >= last);
        assert!(p <= 100 * PERCENT_UNIT);
        last = p;
    }
}

#[test]
fn percent_renders_with_five_decimals() {
    assert_eq!(render_percent(0), b"0.00000".to_vec());
    assert_eq!(render_percent(50 * PERCENT_UNIT), b"50.00000".to_vec());
    assert_eq!(render_percent(3333333), b"33.33333".to_vec());
    assert_eq!(render_percent(100 * PERCENT_UNIT), b"100.00000".to_vec());
    assert_eq!(render_percent(1), b"0.00001".to_vec());
}

#[test]
fn throttle_releases_once_per_interval() {
    let mut t = Throttle::new(200, 1000);
    assert!(!t.poll(1000));
    assert!(!t.poll(1199));
    assert!(t.poll(1200));
    // A burst right after the release stays throttled.
    assert!(!t.poll(1201));
    assert!(!t.poll(1399));
    assert!(t.poll(1405));
    assert!(!t.poll(1406));
}
