use bf_jit::clock::clock_text;

#[test]
fn test_clock_text_pads_with_zeros() {
    assert_eq!(
        clock_text(9, 5, 0, 2019, 1, 2),
        format!(
            "{:02}:{:02}:{:02}\r\r{:04}-{:02}-{:02}",
            9, 5, 0, 2019, 1, 2
        )
    );
    assert_eq!(clock_text(23, 59, 58, 1999, 12, 31), "23:59:58\r\r1999-12-31");
}

#[test]
fn test_clock_text_keeps_what_is_too_wide() {
    assert_eq!(clock_text(123, 0, 0, 12345, 100, 7), "123:00:00\r\r12345-100-07");
}

#[test]
fn test_clock_text_counts_the_sign() {
    assert_eq!(
        clock_text(0, 0, 0, -5, 1, 1),
        format!("{:02}:{:02}:{:02}\r\r{:04}-{:02}-{:02}", 0, 0, 0, -5, 1, 1)
    );
    assert_eq!(clock_text(0, 0, 0, -5, 1, 1), "00:00:00\r\r-005-01-01");
    assert_eq!(
        clock_text(u32::MAX, 0, 0, i32::MIN, 0, 0),
        format!(
            "{:02}:{:02}:{:02}\r\r{:04}-{:02}-{:02}",
            u32::MAX,
            0,
            0,
            i32::MIN,
            0,
            0
        )
    );
}
