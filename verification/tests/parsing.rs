use http_profiler::response::{parse_response, extract_body, ParseError};

#[test]
fn status_code_is_second_token_of_first_line() {
    let raw = b"HTTP/1.0 200 OK\r\nContent-Type: text/html\r\n\r\n<html>hi</html>";
    let r = match parse_response(raw, 42, true) {
        Ok(r) => r,
        Err(_) => panic!("well-formed response must parse"),
    };
    assert_eq!(r.status, 200);
    assert_eq!(r.time_taken, 42);
    assert_eq!(r.size, raw.len());
    assert_eq!(r.body, b"<html>hi</html>".to_vec());
}

#[test]
fn status_code_from_other_versions_and_codes() {
    let raw = b"HTTP/1.1 301 Moved Permanently\r\n\r\n";
    let r = match parse_response(raw, 0, true) {
        Ok(r) => r,
        Err(_) => panic!("well-formed response must parse"),
    };
    assert_eq!(r.status, 301);
    assert_eq!(r.body, Vec::<u8>::new());
}

#[test]
fn body_is_lines_after_first_blank_line_verbatim() {
    let raw = b"HTTP/1.0 200 OK\r\nA: b\r\n\r\nline1\r\n\r\nline3";
    let r = match parse_response(raw, 0, true) {
        Ok(r) => r,
        Err(_) => panic!("well-formed response must parse"),
    };
    assert_eq!(r.body, b"line1\n\nline3".to_vec());
}

#[test]
fn body_with_plain_newlines_keeps_embedded_blank_lines() {
    let lines = vec![
        b"HTTP/1.0 200 OK".to_vec(),
        b"Header: x".to_vec(),
        Vec::new(),
        b"alpha".to_vec(),
        Vec::new(),
        b"beta".to_vec(),
    ];
    assert_eq!(extract_body(&lines), b"alpha\n\nbeta".to_vec());
}

#[test]
fn no_blank_line_means_empty_body() {
    let raw = b"HTTP/1.0 200 OK\r\nHeader: x";
    let r = match parse_response(raw, 0, true) {
        Ok(r) => r,
        Err(_) => panic!("well-formed response must parse"),
    };
    assert_eq!(r.body, Vec::<u8>::new());

    let lines = vec![b"HTTP/1.0 200 OK".to_vec(), b"Header: x".to_vec()];
    assert_eq!(extract_body(&lines), Vec::<u8>::new());
}

#[test]
fn blank_line_as_last_line_means_empty_body() {
    let raw = b"HTTP/1.0 200 OK\r\n\r\n";
    let r = match parse_response(raw, 0, true) {
        Ok(r) => r,
        Err(_) => panic!("well-formed response must parse"),
    };
    assert_eq!(r.body, Vec::<u8>::new());
}

#[test]
fn body_skipped_when_not_needed() {
    let raw = b"HTTP/1.0 200 OK\r\n\r\nsome body";
    let r = match parse_response(raw, 0, false) {
        Ok(r) => r,
        Err(_) => panic!("well-formed response must parse"),
    };
    assert_eq!(r.body, Vec::<u8>::new());
    assert_eq!(r.size, raw.len());
}

#[test]
fn empty_response_fails_instead_of_defaulting() {
    assert_eq!(parse_response(b"", 0, true).err(), Some(ParseError::MissingStatusLine));
}

#[test]
fn status_line_without_second_token_fails() {
    assert_eq!(
        parse_response(b"HTTP/1.0", 0, true).err(),
        Some(ParseError::MissingStatusToken)
    );
    assert_eq!(
        parse_response(b"HTTP/1.0\r\nHeader: x\r\n\r\nbody", 0, true).err(),
        Some(ParseError::MissingStatusToken)
    );
}

#[test]
fn non_numeric_status_fails() {
    assert_eq!(
        parse_response(b"HTTP/1.0 abc OK\r\n\r\n", 0, true).err(),
        Some(ParseError::BadStatusCode)
    );
    // a doubled space makes the second token empty
    assert_eq!(
        parse_response(b"HTTP/1.0  200\r\n\r\n", 0, true).err(),
        Some(ParseError::BadStatusCode)
    );
    // too large for a 16-bit status
    assert_eq!(
        parse_response(b"HTTP/1.0 99999 Huge\r\n\r\n", 0, true).err(),
        Some(ParseError::BadStatusCode)
    );
}

#[test]
fn status_at_the_sixteen_bit_ceiling_still_parses() {
    let r = match parse_response(b"HTTP/1.0 65535 Odd\r\n\r\n", 0, false) {
        Ok(r) => r,
        Err(_) => panic!("a status that fits sixteen bits must parse"),
    };
    assert_eq!(r.status, 65535);
    assert_eq!(
        parse_response(b"HTTP/1.0 65536 Huge\r\n\r\n", 0, false).err(),
        Some(ParseError::BadStatusCode)
    );
}

#[test]
fn lines_split_like_str_lines() {
    let got = http_profiler::lines::split_lines_vec(b"a\nb\r\nc\r");
    let want = vec![b"a".to_vec(), b"b".to_vec(), b"c\r".to_vec()];
    assert_eq!(got, want);

    let got = http_profiler::lines::split_lines_vec(b"one\n");
    assert_eq!(got, vec![b"one".to_vec()]);

    let got = http_profiler::lines::split_lines_vec(b"");
    assert_eq!(got, Vec::<Vec<u8>>::new());
}
