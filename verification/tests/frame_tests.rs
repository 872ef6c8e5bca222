use imap_cache_proxy::frame::{DecodeResult, Decoder};

#[test]
fn one_line_in_one_chunk() {
    let mut d = Decoder::new(4096);
    d.feed(&b"a1 NOOP\r\n".to_vec());
    match d.next_unit() {
        DecodeResult::Line(l) => assert_eq!(l, b"a1 NOOP\r\n".to_vec()),
        _ => panic!("expected a complete line"),
    }
    assert!(matches!(d.next_unit(), DecodeResult::Incomplete));
}

#[test]
fn line_split_across_chunks() {
    let mut d = Decoder::new(4096);
    d.feed(&b"a1 NO".to_vec());
    assert!(matches!(d.next_unit(), DecodeResult::Incomplete));
    d.feed(&b"OP\r\n".to_vec());
    match d.next_unit() {
        DecodeResult::Line(l) => assert_eq!(l, b"a1 NOOP\r\n".to_vec()),
        _ => panic!("expected a complete line"),
    }
}

#[test]
fn literal_follows_its_announcing_line() {
    let mut d = Decoder::new(4096);
    d.feed(&b"* 1 FETCH (BODY[] {5}\r\nHELLO)\r\n".to_vec());
    match d.next_unit() {
        DecodeResult::Line(l) => assert_eq!(l, b"* 1 FETCH (BODY[] {5}\r\n".to_vec()),
        _ => panic!("expected the announcing line"),
    }
    match d.next_unit() {
        DecodeResult::Literal(p) => assert_eq!(p, b"HELLO".to_vec()),
        _ => panic!("expected the literal bytes"),
    }
    match d.next_unit() {
        DecodeResult::Line(l) => assert_eq!(l, b")\r\n".to_vec()),
        _ => panic!("expected the closing line"),
    }
}

#[test]
fn literal_may_contain_crlf() {
    let mut d = Decoder::new(4096);
    d.feed(&b"x {4}\r\nA\r\nB)\r\n".to_vec());
    match d.next_unit() {
        DecodeResult::Line(l) => assert_eq!(l, b"x {4}\r\n".to_vec()),
        _ => panic!("expected the announcing line"),
    }
    match d.next_unit() {
        DecodeResult::Literal(p) => assert_eq!(p, b"A\r\nB".to_vec()),
        _ => panic!("expected the literal bytes"),
    }
    match d.next_unit() {
        DecodeResult::Line(l) => assert_eq!(l, b")\r\n".to_vec()),
        _ => panic!("expected the closing line"),
    }
}

#[test]
fn incomplete_literal_waits() {
    let mut d = Decoder::new(4096);
    d.feed(&b"x {5}\r\nHE".to_vec());
    assert!(matches!(d.next_unit(), DecodeResult::Line(_)));
    assert!(matches!(d.next_unit(), DecodeResult::Incomplete));
    d.feed(&b"LLO".to_vec());
    match d.next_unit() {
        DecodeResult::Literal(p) => assert_eq!(p, b"HELLO".to_vec()),
        _ => panic!("expected the literal bytes"),
    }
}

#[test]
fn unterminated_long_line_is_oversize() {
    let mut d = Decoder::new(8);
    d.feed(&b"0123456789ABCDEF".to_vec());
    assert!(matches!(d.next_unit(), DecodeResult::Oversize));
    let drained = d.drain();
    assert_eq!(drained, b"0123456789ABCDEF".to_vec());
}

#[test]
fn oversized_literal_announce_is_oversize() {
    let mut d = Decoder::new(8);
    d.feed(&b"x {999}\r\n".to_vec());
    assert!(matches!(d.next_unit(), DecodeResult::Oversize));
}

#[test]
fn decoder_preserves_bytes_in_order() {
    let stream = b"a1 LOGIN u p\r\n* 2 FETCH (BODY[] {3}\r\nabc)\r\na1 OK done\r\n".to_vec();
    let mut d = Decoder::new(4096);
    d.feed(&stream);
    let mut out: Vec<u8> = Vec::new();
    loop {
        match d.next_unit() {
            DecodeResult::Line(l) => out.extend_from_slice(&l),
            DecodeResult::Literal(p) => out.extend_from_slice(&p),
            DecodeResult::Incomplete => break,
            DecodeResult::Oversize => panic!("unexpected oversize"),
        }
    }
    out.extend_from_slice(&d.buf);
    assert_eq!(out, stream);
}
