use blockfs::uart::UART;

#[test]
fn written_bytes_are_queued_in_order() {
    let mut u = UART::new();
    u.write_byte(b'a');
    u.write_bytes(b"bcd");
    u.write_bytes(b"");
    assert_eq!(u.take_output(), b"abcd".to_vec());
    assert_eq!(u.take_output(), Vec::<u8>::new());
}

#[test]
fn line_ends_at_carriage_return() {
    let mut u = UART::new();
    let mut buf = [0u8; 16];
    assert_eq!(u.read_line(b"ls -l\rrest", &mut buf, true), (5, 6));
    assert_eq!(&buf[..5], b"ls -l");
    assert_eq!(u.take_output(), b"ls -l\n".to_vec());
}

#[test]
fn line_ends_at_line_feed_without_echo() {
    let mut u = UART::new();
    let mut buf = [0u8; 16];
    assert_eq!(u.read_line(b"ab\ncd\n", &mut buf, false), (2, 3));
    assert_eq!(&buf[..2], b"ab");
    assert_eq!(u.take_output(), Vec::<u8>::new());
}

#[test]
fn delete_takes_the_last_byte_off() {
    let mut u = UART::new();
    let mut buf = [0xffu8; 8];
    assert_eq!(u.read_line(b"ab\x7fc\r", &mut buf, true), (2, 5));
    assert_eq!(&buf[..2], b"ac");
    assert_eq!(
        u.take_output(),
        b"ab\x1b\x5b\x44 \x1b\x5b\x44c\n".to_vec()
    );
}

#[test]
fn delete_wipes_even_without_echo() {
    let mut u = UART::new();
    let mut buf = [0u8; 8];
    assert_eq!(u.read_line(b"a\x7f\x7fb\n", &mut buf, false), (1, 5));
    assert_eq!(&buf[..1], b"b");
    assert_eq!(u.take_output(), b"\x1b\x5b\x44 \x1b\x5b\x44".to_vec());
}

#[test]
fn full_buffer_completes_the_line() {
    let mut u = UART::new();
    let mut buf = [0u8; 3];
    assert_eq!(u.read_line(b"abcdef\r", &mut buf, true), (3, 3));
    assert_eq!(&buf, b"abc");
    assert_eq!(u.take_output(), b"abc\n".to_vec());
}

#[test]
fn delete_makes_room_again() {
    let mut u = UART::new();
    let mut buf = [0u8; 3];
    assert_eq!(u.read_line(b"ab\x7f\x7fxyz", &mut buf, false), (3, 7));
    assert_eq!(&buf, b"xyz");
}

#[test]
fn empty_buffer_reads_nothing() {
    let mut u = UART::new();
    let mut buf: [u8; 0] = [];
    assert_eq!(u.read_line(b"abc\r", &mut buf, true), (0, 0));
    assert_eq!(u.take_output(), b"\n".to_vec());
}

#[test]
fn end_of_input_completes_the_line() {
    let mut u = UART::new();
    let mut buf = [0u8; 8];
    assert_eq!(u.read_line(b"ab", &mut buf, true), (2, 2));
    assert_eq!(&buf[..2], b"ab");
    assert_eq!(u.take_output(), b"ab\n".to_vec());
    assert_eq!(u.read_line(b"", &mut buf, true), (0, 0));
    assert_eq!(u.take_output(), b"\n".to_vec());
}

#[test]
fn bytes_are_taken_one_by_one() {
    let mut u = UART::new();
    let mut buf = [0u8; 4];
    let mut ed = u.begin_line(4, true);
    assert!(!ed.is_done());
    u.accept(&mut ed, &mut buf, b'h');
    assert_eq!(u.take_output(), b"h".to_vec());
    u.accept(&mut ed, &mut buf, b'i');
    assert_eq!((ed.len(), ed.is_done()), (2, false));
    u.accept(&mut ed, &mut buf, b'\n');
    assert!(ed.is_done());
    assert_eq!(u.take_output(), b"i\n".to_vec());
    // a complete line takes nothing more
    u.accept(&mut ed, &mut buf, b'x');
    u.end_line(&mut ed);
    assert_eq!(ed.len(), 2);
    assert_eq!(&buf[..2], b"hi");
    assert_eq!(u.take_output(), Vec::<u8>::new());
}

#[test]
fn buffer_behind_the_line_is_kept() {
    let mut u = UART::new();
    let mut buf = [0u8; 8];
    assert_eq!(u.read_line(b"ls\r", &mut buf, false), (2, 3));
    assert_eq!(buf, [b'l', b's', 0, 0, 0, 0, 0, 0]);
    assert_eq!(u.take_output(), Vec::<u8>::new());

    let mut buf = [0xEEu8; 6];
    assert_eq!(u.read_line(b"abc\x7f\x7fx\n", &mut buf, false), (2, 7));
    // deleted places hold zero, places never reached hold what they held
    assert_eq!(buf, [b'a', b'x', 0, 0xEE, 0xEE, 0xEE]);

    let mut buf = [0u8; 4];
    assert_eq!(u.read_line(b"\x7f\x7fx\n", &mut buf, false), (1, 4));
    assert_eq!(buf, [b'x', 0, 0, 0]);
}

#[test]
fn text_is_queued_as_its_bytes() {
    let mut u = UART::new();
    u.write_str("gr\u{fc}n\n");
    assert_eq!(u.take_output(), "gr\u{fc}n\n".as_bytes().to_vec());
}
