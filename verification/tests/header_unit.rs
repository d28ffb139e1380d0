//! Control-line parsing tests.

use yenc::{YencHeader, YencPart, YencTrailer};

#[test]
fn test_parse_header() {
    let line = "=ybegin line=128 size=123456 name=testfile.bin";
    let header = YencHeader::parse(line).unwrap();
    assert_eq!(header.name, "testfile.bin");
    assert_eq!(header.size, 123456);
    assert_eq!(header.line_len, Some(128));
}

#[test]
fn test_parse_trailer() {
    let line = "=yend size=123456 crc32=abcd1234";
    let trailer = YencTrailer::parse(line).unwrap();
    assert_eq!(trailer.size, 123456);
    assert_eq!(trailer.crc32, Some(0xabcd1234));
}

#[test]
fn test_parse_part() {
    let line = "=ypart begin=1 end=100000";
    let part = YencPart::parse(line).unwrap();
    assert_eq!(part.begin, 1);
    assert_eq!(part.end, 100000);
    assert_eq!(part.size(), 100000);
}

#[test]
fn test_parse_part_size_calculation() {
    let line = "=ypart begin=400001 end=500000";
    let part = YencPart::parse(line).unwrap();
    assert_eq!(part.size(), 100000);
}

#[test]
fn test_parse_multipart_header() {
    let line = "=ybegin part=1 total=10 line=128 size=500000 name=mybinary.dat";
    let header = YencHeader::parse(line).unwrap();
    assert_eq!(header.name, "mybinary.dat");
    assert_eq!(header.size, 500000);
    assert_eq!(header.part, Some(1));
    assert_eq!(header.total, Some(10));
}

#[test]
fn test_parse_multipart_trailer() {
    let line = "=yend size=100000 part=1 pcrc32=abcdef12";
    let trailer = YencTrailer::parse(line).unwrap();
    assert_eq!(trailer.size, 100000);
    assert_eq!(trailer.part, Some(1));
    assert_eq!(trailer.pcrc32, Some(0xabcdef12));
}
