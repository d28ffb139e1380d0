//! Scenario tests for the stated behaviour of the codec: escaping, strict
//! mode, field formats, whitespace tolerance, and the error conditions.

use yenc::numbers::{parse_decimal, parse_hex32, push_decimal, push_hex8};
use yenc::{decode, encode, Decoder, Encoder, YencError, YencHeader};

#[test]
fn test_escaping_seven_values_roundtrip() {
    // A buffer of only the seven canonical escapable values survives the
    // round trip, and the escape marker stands immediately before each
    // transformed occurrence in the encoded form.
    let original = vec![0x00u8, 0x09, 0x0A, 0x0D, 0x20, 0x2E, 0x3D];

    let mut encoded = Vec::new();
    encode(&original[..], &mut encoded, "escapes.bin").unwrap();

    // Of these raw values, only 0x3D has a wire form in the critical set
    // (its transform is escaped); it must appear as `=` then 0x3D+42+64.
    let marker_pos = encoded
        .windows(2)
        .position(|w| w == [0x3D, 0xA7])
        .expect("escape marker with shifted value");
    assert!(marker_pos > 0);

    let mut decoded = Vec::new();
    decode(&encoded[..], &mut decoded).unwrap();
    assert_eq!(decoded, original);
}

#[test]
fn test_strict_rejects_lenient_accepts() {
    // `=a` decodes to a byte outside the canonical set: strict mode fails,
    // lenient mode produces that byte.
    let input = b"=ybegin line=128 size=1 name=test.bin\n=a\n=yend size=1\n";

    let mut strict_out = Vec::new();
    let strict = Decoder::new().strict().decode(&input[..], &mut strict_out);
    assert!(matches!(strict, Err(YencError::InvalidData(_))));

    let mut lenient_out = Vec::new();
    let lenient = decode(&input[..], &mut lenient_out);
    assert!(lenient.is_ok());
    // 'a' is 97; un-escaping gives (97 - 64 - 42) mod 256 = 247.
    assert_eq!(lenient_out, vec![247]);
}

#[test]
fn test_literal_scenario() {
    // The canonical small stream and its exact decoded bytes.
    let input = b"=ybegin line=128 size=5 name=test.bin\nKLMNO\n=yend size=5\n";
    let mut output = Vec::new();

    let (header, part, trailer, _) = decode(&input[..], &mut output).unwrap();

    assert_eq!(header.name, "test.bin");
    assert_eq!(header.size, 5);
    assert!(part.is_none());
    assert_eq!(trailer.unwrap().size, 5);
    assert_eq!(output, vec![33, 34, 35, 36, 37]);
}

#[test]
fn test_crlf_tolerance() {
    // Transport layers may end lines with CR LF; the CR is stripped.
    let input = b"=ybegin line=128 size=5 name=test.bin\r\nKLMNO\r\n=yend size=5\r\n";
    let mut output = Vec::new();

    let (header, _, trailer, size) = decode(&input[..], &mut output).unwrap();

    assert_eq!(header.name, "test.bin");
    assert_eq!(size, 5);
    assert!(trailer.is_some());
    assert_eq!(output, vec![33, 34, 35, 36, 37]);
}

#[test]
fn test_leading_transport_text_skipped() {
    // Anything before the begin line is transport text and is skipped.
    let input = b"From: someone\n\nsome message body\n\
                  =ybegin line=128 size=5 name=test.bin\nKLMNO\n=yend size=5\n";
    let mut output = Vec::new();

    let (header, _, _, _) = decode(&input[..], &mut output).unwrap();

    assert_eq!(header.name, "test.bin");
    assert_eq!(output, vec![33, 34, 35, 36, 37]);
}

#[test]
fn test_unknown_keys_ignored() {
    let header =
        YencHeader::parse("=ybegin line=128 size=5 extra=stuff name=test.bin").unwrap();
    assert_eq!(header.name, "test.bin");
    assert_eq!(header.size, 5);
}

#[test]
fn test_missing_name_field() {
    let result = YencHeader::parse("=ybegin line=128 size=5");
    match result.unwrap_err() {
        YencError::MissingField(f) => assert_eq!(f, "name"),
        other => panic!("Expected MissingField, got {:?}", other),
    }
}

#[test]
fn test_missing_size_field() {
    let result = YencHeader::parse("=ybegin line=128 name=test.bin");
    match result.unwrap_err() {
        YencError::MissingField(f) => assert_eq!(f, "size"),
        other => panic!("Expected MissingField, got {:?}", other),
    }
}

#[test]
fn test_size_overflow_is_missing() {
    // A size field too large for the machine is as good as absent.
    let result = YencHeader::parse("=ybegin line=128 size=99999999999999999999 name=x");
    match result.unwrap_err() {
        YencError::MissingField(f) => assert_eq!(f, "size"),
        other => panic!("Expected MissingField, got {:?}", other),
    }
}

#[test]
fn test_no_header_found() {
    let mut output = Vec::new();
    let result = decode(&b"hello world\nnothing here\n"[..], &mut output);
    match result.unwrap_err() {
        YencError::InvalidHeader(msg) => assert!(msg.contains("No header found")),
        other => panic!("Expected InvalidHeader, got {:?}", other),
    }
}

#[test]
fn test_truncated_escape_at_stream_end() {
    // The stream ends while an escape marker is pending its pair byte.
    let input = b"=ybegin line=128 size=1 name=test.bin\nKL=";
    let mut output = Vec::new();
    let result = decode(&input[..], &mut output);
    match result.unwrap_err() {
        YencError::InvalidData(msg) => assert!(msg.contains("incomplete escape")),
        other => panic!("Expected InvalidData, got {:?}", other),
    }
}

#[test]
fn test_unterminated_stream_gives_no_trailer() {
    // A stream without an end line decodes, with no trailer.
    let input = b"=ybegin line=128 size=5 name=test.bin\nKLMNO\n";
    let mut output = Vec::new();
    let (_, _, trailer, size) = decode(&input[..], &mut output).unwrap();
    assert!(trailer.is_none());
    assert_eq!(size, 5);
    assert_eq!(output, vec![33, 34, 35, 36, 37]);
}

#[test]
fn test_multipart_header_demands_part_line() {
    let input = b"=ybegin part=1 line=128 size=5 name=test.bin\nKLMNO\n=yend size=5\n";
    let mut output = Vec::new();
    let result = decode(&input[..], &mut output);
    match result.unwrap_err() {
        YencError::InvalidData(msg) => assert!(msg.contains("=ypart")),
        other => panic!("Expected InvalidData, got {:?}", other),
    }
}

#[test]
fn test_hex_parse_case_insensitive() {
    let trailer = yenc::YencTrailer::parse("=yend size=5 crc32=ABCD1234").unwrap();
    assert_eq!(trailer.crc32, Some(0xabcd1234));
}

#[test]
fn test_hex_emitted_zero_padded_lowercase() {
    let mut v = Vec::new();
    push_hex8(&mut v, 0xab);
    assert_eq!(v, b"000000ab".to_vec());

    let mut w = Vec::new();
    push_hex8(&mut w, 0xDEADBEEF);
    assert_eq!(w, b"deadbeef".to_vec());
}

#[test]
fn test_decimal_format_and_parse() {
    let mut v = Vec::new();
    push_decimal(&mut v, 0);
    assert_eq!(v, b"0".to_vec());

    let mut w = Vec::new();
    push_decimal(&mut w, 123456);
    assert_eq!(w, b"123456".to_vec());

    assert_eq!(parse_decimal(b"123456"), Some(123456));
    assert_eq!(parse_decimal(b""), None);
    assert_eq!(parse_decimal(b"12x"), None);
    assert_eq!(parse_hex32(b"ffffffff"), Some(0xffffffff));
    assert_eq!(parse_hex32(b"1ffffffff"), None);
}

#[test]
fn test_line_wrapping_at_width() {
    // 300 zero bytes encode to `*` with no escapes: the body must wrap into
    // lines of exactly the default width.
    let data = vec![0u8; 300];
    let mut encoded = Vec::new();
    encode(&data[..], &mut encoded, "wrap.bin").unwrap();

    let text = String::from_utf8(encoded).unwrap();
    let lines: Vec<&str> = text.lines().collect();
    assert_eq!(lines[1].len(), 128);
    assert_eq!(lines[2].len(), 128);
    assert_eq!(lines[3].len(), 44);
    assert!(lines[4].starts_with("=yend"));
}

#[test]
fn test_custom_line_length() {
    let data = vec![0u8; 25];
    let mut encoded = Vec::new();
    Encoder::new()
        .line_length(10)
        .encode(&data[..], &mut encoded, "narrow.bin")
        .unwrap();

    let text = String::from_utf8(encoded).unwrap();
    let lines: Vec<&str> = text.lines().collect();
    assert!(text.contains("=ybegin line=10 "));
    assert_eq!(lines[1].len(), 10);
    assert_eq!(lines[2].len(), 10);
    assert_eq!(lines[3].len(), 5);
}

#[test]
fn test_roundtrip_empty_buffer() {
    let original: Vec<u8> = Vec::new();
    let mut encoded = Vec::new();
    encode(&original[..], &mut encoded, "empty.bin").unwrap();

    let mut decoded = Vec::new();
    let (header, part, trailer, size) = decode(&encoded[..], &mut decoded).unwrap();
    assert_eq!(header.size, 0);
    assert!(part.is_none());
    assert_eq!(trailer.unwrap().size, 0);
    assert_eq!(size, 0);
    assert!(decoded.is_empty());
}

#[test]
fn test_non_ascii_name_roundtrip() {
    // A name outside ASCII travels through the header as UTF-8.
    let original = b"data";
    let name = "f\u{00e9}vrier.bin";
    let mut encoded = Vec::new();
    encode(&original[..], &mut encoded, name).unwrap();

    let mut decoded = Vec::new();
    let (header, _, _, _) = decode(&encoded[..], &mut decoded).unwrap();
    assert_eq!(header.name, name);
    assert_eq!(decoded, original);
}

#[test]
fn test_output_appended_not_replaced() {
    // The decoder appends to the sink it is given.
    let input = b"=ybegin line=128 size=5 name=test.bin\nKLMNO\n=yend size=5\n";
    let mut output = vec![9u8, 9, 9];
    decode(&input[..], &mut output).unwrap();
    assert_eq!(output, vec![9, 9, 9, 33, 34, 35, 36, 37]);
}

#[test]
fn test_output_untouched_on_error() {
    let input = b"=ybegin line=128 size=5 name=test.bin\n*+,-=n\n=yend size=5 crc32=ffffffff\n";
    let mut output = vec![7u8];
    let result = decode(&input[..], &mut output);
    assert!(result.is_err());
    assert_eq!(output, vec![7]);
}
