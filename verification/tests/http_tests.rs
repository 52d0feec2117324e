use http_forward::http::{
    bad_gateway, eq_host, extract_domain, find_r, gateway_timeout, put_decimal, scan, HostSniffer,
    ParseResult, Sniff, SniffError, State, Status, BUF_SIZE, MAX_BUF_SIZE,
};

/// Hands `input` to a sniffer, at most `chunk` bytes at a time and never more
/// than it has room for, up to its verdict.
fn sniff(input: &[u8], chunk: usize) -> Result<ParseResult, SniffError> {
    let mut sniffer = HostSniffer::new();
    let mut pos = 0;
    loop {
        let n = chunk.min(sniffer.room()).min(input.len() - pos);
        match sniffer.feed(&input[pos..pos + n]) {
            Ok(Sniff::More(next)) => {
                sniffer = next;
                pos += n;
            }
            Ok(Sniff::Done(found)) => return Ok(found),
            Err(e) => return Err(e),
        }
    }
}

/// A request whose `Host` line ends, with its carriage return, at `end`.
fn request_with_host_line_ending_at(end: usize) -> Vec<u8> {
    let head = b"GET / HTTP/1.1\r\nX-Pad: ";
    let host = b"\r\nHost: a.example";
    let mut request = head.to_vec();
    request.resize(end - host.len(), b'p');
    request.extend_from_slice(host);
    assert_eq!(request.len(), end);
    request.extend_from_slice(b"\r\n\r\nbody");
    request
}

#[test]
fn find_r_gives_the_first_carriage_return() {
    let s = b"ab\rcd\r\n";
    assert_eq!(find_r(0, s.len(), s), Some(2));
    assert_eq!(find_r(2, s.len(), s), Some(2));
    assert_eq!(find_r(3, s.len(), s), Some(5));
    assert_eq!(find_r(6, s.len(), s), None);
}

#[test]
fn find_r_looks_no_further_than_the_end() {
    let s = b"ab\rcd\r\n";
    assert_eq!(find_r(0, 2, s), None);
    assert_eq!(find_r(0, 3, s), Some(2));
    assert_eq!(find_r(3, 5, s), None);
    assert_eq!(find_r(4, 4, s), None);
    assert_eq!(find_r(5, 3, s), None);
    assert_eq!(find_r(0, 0, b""), None);
}

#[test]
fn eq_host_folds_the_case_of_each_letter() {
    assert!(eq_host(b"host"));
    assert!(eq_host(b"Host"));
    assert!(eq_host(b"HOST"));
    assert!(eq_host(b"hOsT"));
}

#[test]
fn eq_host_takes_nothing_else() {
    assert!(!eq_host(b""));
    assert!(!eq_host(b"hos"));
    assert!(!eq_host(b"hosts"));
    assert!(!eq_host(b"Host "));
    assert!(!eq_host(b" Host"));
    assert!(!eq_host(b"h0st"));
    assert!(!eq_host(b"most"));
    // Bytes that differ from a letter in bit 5 only where the letter does not.
    assert!(!eq_host(&[0x08, b'o', b's', b't']));
    assert!(!eq_host(&[b'h', b'o', b's', 0x14]));
    assert!(!eq_host(&[b'h' | 0x80, b'o', b's', b't']));
}

#[test]
fn extract_domain_gives_all_after_the_first_colon() {
    assert_eq!(extract_domain(b"Host: a.example"), Some(&b" a.example"[..]));
    assert_eq!(extract_domain(b"host:a.example"), Some(&b"a.example"[..]));
    assert_eq!(extract_domain(b"HOST:"), Some(&b""[..]));
}

#[test]
fn extract_domain_keeps_the_port() {
    assert_eq!(extract_domain(b"Host: a.example:8443"), Some(&b" a.example:8443"[..]));
    assert_eq!(extract_domain(b"Host: [::1]:443"), Some(&b" [::1]:443"[..]));
}

#[test]
fn extract_domain_passes_over_other_lines() {
    assert_eq!(extract_domain(b""), None);
    assert_eq!(extract_domain(b"Host"), None);
    assert_eq!(extract_domain(b"Hosts: a.example"), None);
    assert_eq!(extract_domain(b"Host : a.example"), None);
    assert_eq!(extract_domain(b"X-Forwarded-Host: a.example"), None);
    assert_eq!(extract_domain(b"Accept: host:x"), None);
    assert_eq!(extract_domain(b": host"), None);
}

#[test]
fn scan_passes_over_the_request_line() {
    let b = b"Host: first\r\nHost: second\r\n";
    assert_eq!(scan(b, State::Start), (State::ParseHeader(13), Some((13, 25))));
}

#[test]
fn scan_stands_where_a_line_has_not_ended() {
    assert_eq!(scan(b"GET / HTTP/1.1", State::Start), (State::Start, None));
    assert_eq!(scan(b"GET / HTTP/1.1\r", State::Start), (State::ParseHeader(16), None));
    assert_eq!(scan(b"GET / HTTP/1.1\r\nAccept: */*\r\nHo", State::Start), (State::ParseHeader(29), None));
}

#[test]
fn scan_goes_on_from_where_it_stood() {
    let b = b"GET / HTTP/1.1\r\nAccept: */*\r\nHost: a\r\n";
    let whole = scan(b, State::Start);
    assert_eq!(whole, (State::ParseHeader(29), Some((29, 36))));
    for cut in 0..b.len() {
        let (state, found) = scan(&b[..cut], State::Start);
        if found.is_none() {
            assert_eq!(scan(b, state), whole);
        } else {
            assert_eq!((state, found), whole);
            assert!(cut > 36);
        }
    }
}

#[test]
fn sniffer_finds_the_host_of_a_plain_request() {
    let request = b"GET / HTTP/1.1\r\nHost: a.example\r\n\r\nhello";
    let found = sniff(request, 4096).unwrap();
    assert_eq!(found.domain, "a.example");
    assert_eq!(found.buf, request.to_vec());
}

#[test]
fn sniffer_keeps_every_byte_in_order_however_they_arrive() {
    let request = b"POST /x HTTP/1.1\r\nAccept: */*\r\nhOsT:   b.example:8443 \r\nContent-Length: 5\r\n\r\nhello";
    let end_of_host_line = 54;
    assert_eq!(&request[end_of_host_line - 1..end_of_host_line + 3], b" \r\nC");
    for chunk in 1..=request.len() {
        let found = sniff(request, chunk).unwrap();
        assert_eq!(found.domain, "b.example:8443");
        // What was taken is a prefix of the stream that reaches past the line.
        assert!(found.buf.len() > end_of_host_line);
        assert_eq!(&found.buf[..], &request[..found.buf.len()]);
        // No read is taken after the one that brought the end of the line.
        assert!(found.buf.len() <= end_of_host_line + chunk);
    }
}

#[test]
fn sniffer_takes_the_first_host_line() {
    let request = b"GET / HTTP/1.1\r\nHost: one\r\nHost: two\r\n\r\n";
    assert_eq!(sniff(request, 4096).unwrap().domain, "one");
}

#[test]
fn sniffer_passes_over_a_host_in_the_request_line() {
    let request = b"Host: zero\r\nHost: one\r\n\r\n";
    assert_eq!(sniff(request, 4096).unwrap().domain, "one");
}

#[test]
fn sniffer_trims_white_space_of_every_kind() {
    let request = "GET / HTTP/1.1\r\nHost:\t \u{a0}\u{2003}a.example\u{3000}\u{85} \r\n\r\n";
    assert_eq!(sniff(request.as_bytes(), 4096).unwrap().domain, "a.example");
    let request = "GET / HTTP/1.1\r\nHost: a b\u{200b}\r\n\r\n";
    assert_eq!(sniff(request.as_bytes(), 4096).unwrap().domain, "a b\u{200b}");
}

#[test]
fn sniffer_gives_an_empty_host_for_an_empty_value() {
    assert_eq!(sniff(b"GET / HTTP/1.1\r\nHost:\r\n\r\n", 4096).unwrap().domain, "");
    assert_eq!(sniff(b"GET / HTTP/1.1\r\nHost:   \r\n\r\n", 4096).unwrap().domain, "");
}

#[test]
fn sniffer_refuses_a_host_that_is_not_utf8() {
    let request = b"GET / HTTP/1.1\r\nHost: a\xff.example\r\n\r\n";
    assert_eq!(sniff(request, 4096).err(), Some(SniffError::InvalidHost));
}

#[test]
fn sniffer_refuses_a_stream_that_ends_early() {
    assert_eq!(sniff(b"", 4096).err(), Some(SniffError::UnexpectedEof));
    assert_eq!(sniff(b"GET / HTTP/1.1\r\nHost: a.exam", 4096).err(), Some(SniffError::UnexpectedEof));
    assert_eq!(sniff(b"GET / HTTP/1.1\r\nAccept: */*\r\n\r\n", 7).err(), Some(SniffError::UnexpectedEof));
}

#[test]
fn sniffer_starts_with_room_for_one_kibibyte_and_doubles() {
    assert_eq!(BUF_SIZE, 1024);
    assert_eq!(MAX_BUF_SIZE, 4096);
    let mut sniffer = HostSniffer::new();
    let mut taken = 0;
    for (bytes, room_before) in [(1000, 1024), (24, 24), (1, 1024), (1023, 1023), (2048, 2048)] {
        assert_eq!(sniffer.room(), room_before);
        taken += bytes;
        match sniffer.feed(&vec![b'x'; bytes]) {
            Ok(Sniff::More(next)) => sniffer = next,
            Err(SniffError::HeaderTooLarge) => {
                assert_eq!(taken, 4096);
                return;
            }
            _ => panic!("no host is in these bytes"),
        }
    }
    panic!("4096 bytes without a host line are too many");
}

#[test]
fn sniffer_finds_a_host_line_that_ends_at_the_limit() {
    let request = request_with_host_line_ending_at(MAX_BUF_SIZE - 1);
    assert_eq!(request[MAX_BUF_SIZE - 1], b'\r');
    for chunk in [1, 7, 1024, 4096] {
        let found = sniff(&request, chunk).unwrap();
        assert_eq!(found.domain, "a.example");
        assert_eq!(found.buf, request[..MAX_BUF_SIZE].to_vec());
    }
}

#[test]
fn sniffer_refuses_a_host_line_that_ends_a_byte_past_the_limit() {
    let request = request_with_host_line_ending_at(MAX_BUF_SIZE);
    assert_eq!(request[MAX_BUF_SIZE], b'\r');
    for chunk in [1, 7, 1024, 4096] {
        assert_eq!(sniff(&request, chunk).err(), Some(SniffError::HeaderTooLarge));
    }
}

#[test]
fn sniffer_refuses_a_request_without_a_host_line() {
    let mut request = b"GET / HTTP/1.1\r\n".to_vec();
    while request.len() < 5000 {
        request.extend_from_slice(b"X-Pad: pppppppppppppppp\r\n");
    }
    assert_eq!(sniff(&request, 512).err(), Some(SniffError::HeaderTooLarge));
}

#[test]
fn status_new_is_what_the_response_shows() {
    assert_eq!(
        Status::new(200, "OK").response(),
        b"HTTP/1.1 200 OK\r\ncontent-length: 0\r\n\r\n".to_vec()
    );
}

#[test]
fn bad_gateway_is_502() {
    assert_eq!(
        bad_gateway().response(),
        b"HTTP/1.1 502 Bad Gateway\r\ncontent-length: 0\r\n\r\n".to_vec()
    );
}

#[test]
fn gateway_timeout_is_504() {
    assert_eq!(
        gateway_timeout().response(),
        b"HTTP/1.1 504 Gateway Timeout\r\ncontent-length: 0\r\n\r\n".to_vec()
    );
}

#[test]
fn status_takes_any_code_and_phrase() {
    assert_eq!(Status::new(0, "").response(), b"HTTP/1.1 0 \r\ncontent-length: 0\r\n\r\n".to_vec());
    assert_eq!(
        Status::new(65535, "tr\u{e8}s grand").response(),
        "HTTP/1.1 65535 tr\u{e8}s grand\r\ncontent-length: 0\r\n\r\n".as_bytes().to_vec()
    );
}

#[test]
fn put_decimal_writes_no_leading_zeros() {
    for n in [0u16, 7, 9, 10, 42, 99, 100, 502, 999, 1000, 9999, 10000, 10001, 65535] {
        let mut out = b"n=".to_vec();
        put_decimal(&mut out, n);
        assert_eq!(out, format!("n={}", n).into_bytes());
    }
}

#[test]
fn sniffer_trims_exactly_the_white_space_of_unicode() {
    let white: [(u32, u32); 11] = [
        (0x9, 0xd),
        (0x20, 0x20),
        (0x85, 0x85),
        (0xa0, 0xa0),
        (0x1680, 0x1680),
        (0x2000, 0x200a),
        (0x2028, 0x2028),
        (0x2029, 0x2029),
        (0x202f, 0x202f),
        (0x205f, 0x205f),
        (0x3000, 0x3000),
    ];
    for code in 0..=0x10ffffu32 {
        let c = match char::from_u32(code) {
            Some(c) => c,
            None => continue,
        };
        // A carriage return would end the line, a colon is told apart below.
        if c == '\r' {
            continue;
        }
        let request = format!("GET / HTTP/1.1\r\nHost:{}a{}\r\n\r\n", c, c);
        let found = sniff(request.as_bytes(), 4096).unwrap();
        if white.iter().any(|(low, high)| *low <= code && code <= *high) {
            assert_eq!(found.domain, "a", "U+{:04X} is white space", code);
        } else {
            assert_eq!(found.domain, format!("{}a{}", c, c), "U+{:04X} is no white space", code);
        }
    }
}
