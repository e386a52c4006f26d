use rtorrent_xml_rpc::byte_value_string;
use rtorrent_xml_rpc::encode;
use rtorrent_xml_rpc::generate_header_length;
use rtorrent_xml_rpc::generate_headers;
use rtorrent_xml_rpc::generate_request;
use rtorrent_xml_rpc::parse_response;
use rtorrent_xml_rpc::usize_to_decimal;

#[test]
fn encode_empty_payload() {
    let r = encode("");
    assert_eq!(r, b"24:CONTENT_LENGTH\x000\x00SCGI\x001\x00".to_vec());
}

#[test]
fn encode_short_payload() {
    let r = encode("hello");
    assert_eq!(r, b"24:CONTENT_LENGTH\x005\x00SCGI\x001\x00hello".to_vec());
}

#[test]
fn encode_multibyte_payload_uses_byte_length() {
    let payload = "caf\u{e9}";
    assert_eq!(payload.len(), 5);
    let r = encode(payload);
    let mut expected = b"24:CONTENT_LENGTH\x005\x00SCGI\x001\x00".to_vec();
    expected.extend_from_slice(payload.as_bytes());
    assert_eq!(r, expected);
}

#[test]
fn encode_prefix_is_decimal_header_length() {
    let r = encode("0123456789");
    let colon = r.iter().position(|&b| b == b':').unwrap();
    assert_eq!(&r[..colon], b"25");
    assert!(r.ends_with(b"0123456789"));
}

#[test]
fn encode_twice_identical() {
    let a = encode("<methodCall/>");
    let b = encode("<methodCall/>");
    assert_eq!(a, b);
}

#[test]
fn decode_two_headers_and_body() {
    let r = parse_response(b"A:1\r\nB:2\r\n\r\nhello").unwrap();
    assert_eq!(r.headers.len(), 2);
    assert_eq!(r.headers[0].name, "A");
    assert_eq!(r.headers[0].value, "1");
    assert_eq!(r.headers[1].name, "B");
    assert_eq!(r.headers[1].value, "2");
    assert_eq!(r.body, "hello");
}

#[test]
fn decode_without_separator_fails() {
    assert!(parse_response(b"noseparator").is_none());
}

#[test]
fn decode_with_two_separators_fails() {
    assert!(parse_response(b"a\r\n\r\nb\r\n\r\nc").is_none());
}

#[test]
fn decode_malformed_header_line_fails() {
    assert!(parse_response(b"BADLINE\r\n\r\nbody").is_none());
}

#[test]
fn decode_value_with_colon_fails() {
    assert!(parse_response(b"A:1:2\r\n\r\nbody").is_none());
}

#[test]
fn decode_empty_header_block_fails() {
    assert!(parse_response(b"\r\n\r\nbody").is_none());
}

#[test]
fn decode_empty_body() {
    let r = parse_response(b"A:1\r\n\r\n").unwrap();
    assert_eq!(r.headers.len(), 1);
    assert_eq!(r.body, "");
}

#[test]
fn decode_body_may_contain_single_crlf() {
    let r = parse_response(b"A:1\r\n\r\nline1\r\nline2").unwrap();
    assert_eq!(r.body, "line1\r\nline2");
}

#[test]
fn decode_allows_empty_name_or_value() {
    let r = parse_response(b":v\r\nk:\r\n\r\nb").unwrap();
    assert_eq!(r.headers.len(), 2);
    assert_eq!(r.headers[0].name, "");
    assert_eq!(r.headers[0].value, "v");
    assert_eq!(r.headers[1].name, "k");
    assert_eq!(r.headers[1].value, "");
}

#[test]
fn decode_preserves_high_bytes() {
    let mut raw = b"A:1\r\n\r\n".to_vec();
    raw.push(0x80);
    raw.push(0xFF);
    let r = parse_response(&raw).unwrap();
    let chars: Vec<char> = r.body.chars().collect();
    assert_eq!(chars.len(), 2);
    assert_eq!(chars[0] as u32, 0x80);
    assert_eq!(chars[1] as u32, 0xFF);
}

#[test]
fn generate_headers_fields() {
    let hs = generate_headers("abc");
    assert_eq!(hs.len(), 2);
    assert_eq!(hs[0], "CONTENT_LENGTH\u{0}3\u{0}");
    assert_eq!(hs[1], "SCGI\u{0}1\u{0}");
}

#[test]
fn generate_header_length_sums_bytes() {
    let hs = vec![String::from("ab"), String::from("cde")];
    assert_eq!(generate_header_length(&hs), 5);
}

#[test]
fn generate_header_length_counts_bytes_not_chars() {
    let hs = vec![String::from("\u{e9}")];
    assert_eq!(generate_header_length(&hs), 2);
}

#[test]
fn generate_request_concatenates_without_separator() {
    let hs = vec![String::from("X\u{0}y\u{0}")];
    let r = generate_request(4, &hs, "body");
    assert_eq!(r, "4:X\u{0}y\u{0}body");
}

#[test]
fn usize_to_decimal_renders() {
    assert_eq!(usize_to_decimal(0), "0");
    assert_eq!(usize_to_decimal(7), "7");
    assert_eq!(usize_to_decimal(90210), "90210");
}

#[test]
fn byte_value_string_maps_every_byte() {
    let s = byte_value_string(&[72, 105, 0xC3]);
    let chars: Vec<char> = s.chars().collect();
    assert_eq!(chars, vec!['H', 'i', '\u{c3}']);
}

#[test]
fn round_trip_encode_then_split_payload() {
    let payload = "<methodCall><methodName>system.listMethods</methodName></methodCall>";
    let r = encode(payload);
    assert!(r.ends_with(payload.as_bytes()));
    let colon = r.iter().position(|&b| b == b':').unwrap();
    let digits = std::str::from_utf8(&r[..colon]).unwrap();
    let header_len: usize = digits.parse().unwrap();
    assert_eq!(&r[colon + 1 + header_len..], payload.as_bytes());
}
