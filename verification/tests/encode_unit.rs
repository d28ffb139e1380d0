//! Encoder tests: the byte transform, simple and multi-part emission, and
//! checksum fields.

use yenc::transform::encode_byte;
use yenc::{encode, Encoder, MultiPartInfo, YencError};

#[test]
fn test_encode_byte() {
    assert_eq!(encode_byte(0), 42);
    assert_eq!(encode_byte(1), 43);
}

#[test]
fn encode_test_encode_simple() {
    let input = vec![0u8, 1, 2, 3, 4];
    let mut output = Vec::new();

    let size = encode(&input[..], &mut output, "test.bin").unwrap();

    assert_eq!(size, 5);
    let output_str = String::from_utf8(output).unwrap();
    assert!(output_str.contains("=ybegin"));
    assert!(output_str.contains("name=test.bin"));

    // Verify CRC32 is present (default behavior)
    assert!(output_str.contains("crc32="));
    let crc_line = output_str.lines().last().unwrap();
    assert!(crc_line.starts_with("=yend"));

    // CRC32 for [0, 1, 2, 3, 4] is 0x515ad3cc
    assert!(crc_line.contains("crc32=515ad3cc"));
}

#[test]
fn test_encode_no_crc() {
    let input = vec![0u8, 1, 2, 3, 4];
    let mut output = Vec::new();

    Encoder::new()
        .no_crc()
        .encode(&input[..], &mut output, "test.bin")
        .unwrap();

    let output_str = String::from_utf8(output).unwrap();
    assert!(!output_str.contains("crc32="));
}

#[test]
fn test_encode_multipart_basic() {
    let data = vec![0u8, 1, 2, 3, 4];
    let mut output = Vec::new();

    let part_info = MultiPartInfo::new(1, 2, 1, 5, 10);

    Encoder::new()
        .encode_part(&data[..], &mut output, "test.bin", &part_info)
        .unwrap();

    let output_str = String::from_utf8(output).unwrap();

    // Verify header
    assert!(output_str.contains("=ybegin part=1 total=2"));
    assert!(output_str.contains("size=10")); // Full file size
    assert!(output_str.contains("name=test.bin"));

    // Verify part line
    assert!(output_str.contains("=ypart begin=1 end=5"));

    // Verify trailer
    let trailer = output_str.lines().last().unwrap();
    assert!(trailer.starts_with("=yend size=5 part=1")); // Part size
    assert!(trailer.contains("pcrc32=515ad3cc")); // Part CRC
}

#[test]
fn test_encode_multipart_with_full_crc() {
    let data = vec![5u8, 6, 7, 8, 9];
    let mut output = Vec::new();

    let part_info = MultiPartInfo::new(2, 2, 6, 10, 10).with_full_crc(0x12345678); // Full file CRC

    Encoder::new()
        .encode_part(&data[..], &mut output, "test.bin", &part_info)
        .unwrap();

    let output_str = String::from_utf8(output).unwrap();
    let trailer = output_str.lines().last().unwrap();

    assert!(trailer.contains("pcrc32=")); // Part CRC
    assert!(trailer.contains("crc32=12345678")); // Full file CRC
}

#[test]
fn test_encode_multipart_size_mismatch() {
    let data = vec![0u8, 1, 2]; // Only 3 bytes
    let mut output = Vec::new();

    // Says it should be 5 bytes (begin=1 end=5)
    let part_info = MultiPartInfo::new(1, 2, 1, 5, 10);

    let result = Encoder::new().encode_part(&data[..], &mut output, "test.bin", &part_info);

    assert!(result.is_err());
    match result.unwrap_err() {
        YencError::InvalidData(msg) => {
            assert!(msg.contains("Part size mismatch"));
        }
        other => panic!("Expected InvalidData, got {:?}", other),
    }
}

#[test]
fn test_encode_multipart_no_crc() {
    let data = vec![0u8, 1, 2, 3, 4];
    let mut output = Vec::new();

    let part_info = MultiPartInfo::new(1, 1, 1, 5, 5);

    Encoder::new()
        .no_crc()
        .encode_part(&data[..], &mut output, "test.bin", &part_info)
        .unwrap();

    let output_str = String::from_utf8(output).unwrap();
    assert!(!output_str.contains("pcrc32=")); // No CRC computed
}

#[test]
fn test_multipart_info_expected_size() {
    let info = MultiPartInfo::new(1, 10, 1, 100, 1000);
    assert_eq!(info.expected_size(), 100);

    let info = MultiPartInfo::new(2, 10, 101, 200, 1000);
    assert_eq!(info.expected_size(), 100);

    let info = MultiPartInfo::new(5, 10, 400001, 500000, 500000);
    assert_eq!(info.expected_size(), 100000);
}
