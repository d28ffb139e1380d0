//! Decoder tests: the byte transform, simple and multi-part streams, and
//! checksum handling.

use yenc::transform::decode_byte;
use yenc::{decode, Decoder, YencError};

#[test]
fn test_decode_byte() {
    assert_eq!(decode_byte(b'*'), 0);
    assert_eq!(decode_byte(b'+'), 1);
    assert_eq!(decode_byte(b','), 2);
}

#[test]
fn decode_test_decode_simple() {
    let input = b"=ybegin line=128 size=5 name=test.bin\nKLMNO\n=yend size=5\n";
    let mut output = Vec::new();

    let (header, part, _, size) = decode(&input[..], &mut output).unwrap();

    assert_eq!(header.name, "test.bin");
    assert_eq!(header.size, 5);
    assert_eq!(size, 5);
    assert_eq!(output, vec![33, 34, 35, 36, 37]);
    assert!(part.is_none());
}

#[test]
fn test_decoder_builder() {
    let input = b"=ybegin line=128 size=5 name=test.bin\nKLMNO\n=yend size=5\n";
    let mut output = Vec::new();

    let (header, _, _, _) = Decoder::new()
        .strict()
        .no_crc_check()
        .decode(&input[..], &mut output)
        .unwrap();

    assert_eq!(header.name, "test.bin");
}

#[test]
fn test_invalid_escape_sequence() {
    let input = b"=ybegin line=128 size=1 name=test.bin\n=a\n=yend size=1\n";
    let mut output = Vec::new();

    let result = Decoder::new().strict().decode(&input[..], &mut output);

    assert!(result.is_err());
    match result.unwrap_err() {
        YencError::InvalidData(msg) => {
            assert!(msg.contains("Invalid escape sequence"));
        }
        other => panic!("Expected InvalidData, got {:?}", other),
    }
}

#[test]
fn test_decode_with_valid_crc() {
    // Encoded data with valid CRC32
    let input = b"=ybegin line=128 size=5 name=test.bin\n*+,-=n\n=yend size=5 crc32=515ad3cc\n";
    let mut output = Vec::new();

    let (header, part, trailer, size) = decode(&input[..], &mut output).unwrap();

    assert_eq!(header.name, "test.bin");
    assert_eq!(size, 5);
    assert_eq!(output, vec![0, 1, 2, 3, 4]);
    assert!(part.is_none());
    assert_eq!(trailer.unwrap().crc32, Some(0x515ad3cc));
}

#[test]
fn test_decode_with_invalid_crc() {
    // Encoded data with incorrect CRC32
    let input = b"=ybegin line=128 size=5 name=test.bin\n*+,-=n\n=yend size=5 crc32=ffffffff\n";
    let mut output = Vec::new();

    let result = decode(&input[..], &mut output);

    assert!(result.is_err());
    match result.unwrap_err() {
        YencError::CrcMismatch { expected, actual } => {
            assert_eq!(expected, 0xffffffff);
            assert_eq!(actual, 0x515ad3cc);
        }
        other => panic!("Expected CrcMismatch, got {:?}", other),
    }
}

#[test]
fn test_decode_no_crc_check() {
    // Even with wrong CRC, should pass when validation is disabled
    let input = b"=ybegin line=128 size=5 name=test.bin\n*+,-=n\n=yend size=5 crc32=ffffffff\n";
    let mut output = Vec::new();

    let result = Decoder::new().no_crc_check().decode(&input[..], &mut output);

    assert!(result.is_ok());
    assert_eq!(output, vec![0, 1, 2, 3, 4]);
}

#[test]
fn test_decode_without_crc_in_trailer() {
    // No CRC in trailer - should pass even with validation enabled
    let input = b"=ybegin line=128 size=5 name=test.bin\n*+,-=n\n=yend size=5\n";
    let mut output = Vec::new();

    let result = decode(&input[..], &mut output);

    assert!(result.is_ok());
    assert_eq!(output, vec![0, 1, 2, 3, 4]);
}

#[test]
fn test_decode_multipart() {
    let input = b"=ybegin part=1 total=2 line=128 size=10 name=test.bin\n\
                  =ypart begin=1 end=5\n\
                  *+,-=n\n\
                  =yend size=5 part=1 pcrc32=515ad3cc\n";
    let mut output = Vec::new();

    let (header, part, trailer, size) = decode(&input[..], &mut output).unwrap();

    assert_eq!(header.name, "test.bin");
    assert_eq!(header.size, 10); // Full file size
    assert_eq!(header.part, Some(1));
    assert_eq!(header.total, Some(2));

    let part = part.unwrap();
    assert_eq!(part.begin, 1);
    assert_eq!(part.end, 5);
    assert_eq!(part.size(), 5);

    let trailer = trailer.unwrap();
    assert_eq!(trailer.size, 5); // Part size
    assert_eq!(trailer.part, Some(1));
    assert_eq!(trailer.pcrc32, Some(0x515ad3cc));

    assert_eq!(size, 5);
    assert_eq!(output, vec![0, 1, 2, 3, 4]);
}

#[test]
fn test_decode_multipart_size_mismatch() {
    // Part says begin=1 end=5 (5 bytes) but trailer says size=10
    let input = b"=ybegin part=1 line=128 size=100 name=test.bin\n\
                  =ypart begin=1 end=5\n\
                  *+,-=n\n\
                  =yend size=10 part=1 pcrc32=515ad3cc\n";
    let mut output = Vec::new();

    let result = decode(&input[..], &mut output);
    assert!(result.is_err());
    match result.unwrap_err() {
        YencError::InvalidData(msg) => {
            assert!(msg.contains("Part size mismatch"));
        }
        other => panic!("Expected InvalidData, got {:?}", other),
    }
}

#[test]
fn test_decode_multipart_part_number_mismatch() {
    // Header says part=1 but trailer says part=2
    let input = b"=ybegin part=1 line=128 size=10 name=test.bin\n\
                  =ypart begin=1 end=5\n\
                  *+,-=n\n\
                  =yend size=5 part=2 pcrc32=515ad3cc\n";
    let mut output = Vec::new();

    let result = decode(&input[..], &mut output);
    assert!(result.is_err());
    match result.unwrap_err() {
        YencError::InvalidData(msg) => {
            assert!(msg.contains("Part number mismatch"));
        }
        other => panic!("Expected InvalidData, got {:?}", other),
    }
}

#[test]
fn test_decode_multipart_pcrc32_validation() {
    // Multi-part with wrong pcrc32
    let input = b"=ybegin part=1 line=128 size=10 name=test.bin\n\
                  =ypart begin=1 end=5\n\
                  *+,-=n\n\
                  =yend size=5 part=1 pcrc32=ffffffff\n";
    let mut output = Vec::new();

    let result = decode(&input[..], &mut output);
    assert!(result.is_err());
    match result.unwrap_err() {
        YencError::CrcMismatch { expected, actual } => {
            assert_eq!(expected, 0xffffffff);
            assert_eq!(actual, 0x515ad3cc);
        }
        other => panic!("Expected CrcMismatch, got {:?}", other),
    }
}

#[test]
fn test_decode_multipart_no_crc_check() {
    // Multi-part with wrong pcrc32, but validation disabled
    let input = b"=ybegin part=1 line=128 size=10 name=test.bin\n\
                  =ypart begin=1 end=5\n\
                  *+,-=n\n\
                  =yend size=5 part=1 pcrc32=ffffffff\n";
    let mut output = Vec::new();

    let result = Decoder::new().no_crc_check().decode(&input[..], &mut output);

    assert!(result.is_ok());
    assert_eq!(output, vec![0, 1, 2, 3, 4]);
}

#[test]
fn test_decode_multipart_second_part() {
    // Test decoding a second part (begin=100001 end=100005)
    let input = b"=ybegin part=2 total=5 line=128 size=500000 name=mybinary.dat\n\
                  =ypart begin=100001 end=100005\n\
                  *+,-=n\n\
                  =yend size=5 part=2 pcrc32=515ad3cc\n";
    let mut output = Vec::new();

    let (header, part, trailer, size) = decode(&input[..], &mut output).unwrap();

    assert_eq!(header.size, 500000); // Full file size
    assert_eq!(header.part, Some(2));

    let part = part.unwrap();
    assert_eq!(part.begin, 100001);
    assert_eq!(part.end, 100005);
    assert_eq!(part.size(), 5);

    let trailer = trailer.unwrap();
    assert_eq!(trailer.size, 5);
    assert_eq!(trailer.part, Some(2));

    assert_eq!(size, 5);
    assert_eq!(output, vec![0, 1, 2, 3, 4]);
}
