use socketing::header::HeaderReader;

#[test]
fn header_ends_at_the_blank_line() {
    let bytes = b"GET / HTTP/1.1\r\nHost: localhost\r\n\r\n{\"a\":1}";
    let mut reader = HeaderReader::new();
    let mut used = 0;
    for &b in bytes.iter() {
        used += 1;
        if reader.feed(b) {
            break;
        }
    }
    assert!(reader.is_done());
    assert_eq!(used, 35);
    let lines = reader.into_lines();
    assert_eq!(
        lines,
        vec![b"GET / HTTP/1.1\r\n".to_vec(), b"Host: localhost\r\n".to_vec(), b"\r\n".to_vec()]
    );
}

#[test]
fn white_space_only_line_is_blank() {
    let mut reader = HeaderReader::new();
    let mut finished = Vec::new();
    for &b in b"A\n \t\x0b\r\n".iter() {
        finished.push(reader.feed(b));
    }
    assert_eq!(finished, vec![false, false, false, false, false, false, true]);
}

#[test]
fn latin1_spaces_count_as_blank() {
    let mut reader = HeaderReader::new();
    assert!(!reader.feed(0xA0));
    assert!(!reader.feed(0x85));
    assert!(reader.feed(b'\n'));
    assert_eq!(reader.into_lines(), vec![vec![0xA0u8, 0x85, b'\n']]);
}

#[test]
fn unfinished_line_is_not_kept() {
    let mut reader = HeaderReader::new();
    for &b in b"GET / HTTP/1.1\r\nHost".iter() {
        assert!(!reader.feed(b));
    }
    assert!(!reader.is_done());
    assert_eq!(reader.into_lines(), vec![b"GET / HTTP/1.1\r\n".to_vec()]);
}
