use cube::ppm::{
    encode_ppm, is_utf8, parse_ppm, parse_u32, read_dimensions, split_whitespace, trim_slice, IntErrorKind, PpmError,
};

fn std_parse(s: &str) -> Result<u32, IntErrorKind> {
    s.parse::<u32>().map_err(|e| match e.kind() {
        std::num::IntErrorKind::Empty => IntErrorKind::Empty,
        std::num::IntErrorKind::InvalidDigit => IntErrorKind::InvalidDigit,
        std::num::IntErrorKind::PosOverflow => IntErrorKind::PosOverflow,
        other => panic!("unexpected {other:?}"),
    })
}

#[test]
fn parses_simple_image() {
    let mut data = b"P5\n3 2\n255\n".to_vec();
    data.extend_from_slice(&[1, 2, 3, 4, 5, 6, 7]);
    let (pixels, w, h) = parse_ppm(&data).unwrap();
    assert_eq!((w, h), (3, 2));
    assert_eq!(pixels, vec![1, 2, 3, 4, 5, 6]);
}

#[test]
fn skips_comments_and_odd_lines_before_dimensions() {
    let mut data = b"P5 extra\n# made by hand\n\none two three\n  # indented comment\n 2\t2 \r\n255\n".to_vec();
    data.extend_from_slice(&[9, 8, 7, 6]);
    let (pixels, w, h) = parse_ppm(&data).unwrap();
    assert_eq!((w, h), (2, 2));
    assert_eq!(pixels, vec![9, 8, 7, 6]);
}

#[test]
fn unicode_whitespace_separates_words() {
    let mut data = "P5\n\u{a0}4\u{3000}1\u{2003}\n+255\n".as_bytes().to_vec();
    data.extend_from_slice(&[0, 0, 0, 0]);
    let (_, w, h) = parse_ppm(&data).unwrap();
    assert_eq!((w, h), (4, 1));
}

#[test]
fn rejects_other_formats() {
    assert_eq!(parse_ppm(b"P6\n1 1\n255\n\0"), Err(PpmError::UnsupportedFormat));
    assert_eq!(parse_ppm(b""), Err(PpmError::UnsupportedFormat));
    assert_eq!(parse_ppm(b"\xff\xfeP5\n"), Err(PpmError::ReadMagic));
}

#[test]
fn reports_each_header_error() {
    assert_eq!(parse_ppm(b"P5\n# only a comment\n"), Err(PpmError::MissingDimensions));
    assert_eq!(parse_ppm(b"P5\n\xc3\x28 1\n"), Err(PpmError::ReadDimensions));
    assert_eq!(parse_ppm(b"P5\nx 1\n255\n"), Err(PpmError::InvalidWidth(IntErrorKind::InvalidDigit)));
    assert_eq!(parse_ppm(b"P5\n1 -1\n255\n"), Err(PpmError::InvalidHeight(IntErrorKind::InvalidDigit)));
    assert_eq!(parse_ppm(b"P5\n1 1\n\xff\n"), Err(PpmError::ReadMaxValue));
    assert_eq!(parse_ppm(b"P5\n1 1\nmax\n"), Err(PpmError::InvalidMaxValue(IntErrorKind::InvalidDigit)));
    assert_eq!(parse_ppm(b"P5\n1 1\n\n"), Err(PpmError::InvalidMaxValue(IntErrorKind::Empty)));
    assert_eq!(parse_ppm(b"P5\n1 1\n65535\n\0\0"), Err(PpmError::UnsupportedMaxValue(65535)));
    assert_eq!(parse_ppm(b"P5\n65536 65536\n255\n"), Err(PpmError::DimensionsOverflow));
    assert_eq!(parse_ppm(b"P5\n2 2\n255\n\x01\x02\x03"), Err(PpmError::ReadPixelData));
}

#[test]
fn read_dimensions_returns_next_position() {
    let data = b"# c\n12 34\nrest";
    assert_eq!(read_dimensions(data, 0), Ok((12, 34, 10)));
    assert_eq!(read_dimensions(data, 10), Err(PpmError::MissingDimensions));
    assert_eq!(read_dimensions(b"4294967296 1\n", 0), Err(PpmError::InvalidWidth(IntErrorKind::PosOverflow)));
}

#[test]
fn parse_u32_follows_from_str() {
    assert_eq!(parse_u32(b"0"), Ok(0));
    assert_eq!(parse_u32(b"007"), Ok(7));
    assert_eq!(parse_u32(b"+42"), Ok(42));
    assert_eq!(parse_u32(b"4294967295"), Ok(u32::MAX));
    assert_eq!(parse_u32(b"4294967296"), Err(IntErrorKind::PosOverflow));
    assert_eq!(parse_u32(b"+"), Err(IntErrorKind::InvalidDigit));
    assert_eq!(parse_u32(b""), Err(IntErrorKind::Empty));
    assert_eq!(parse_u32(b"-0"), Err(IntErrorKind::InvalidDigit));
    assert_eq!(parse_u32(b"1_0"), Err(IntErrorKind::InvalidDigit));
    assert_eq!(parse_u32(b"99999999999x"), Err(IntErrorKind::PosOverflow));
    assert_eq!(parse_u32(b"9x999999999999"), Err(IntErrorKind::InvalidDigit));
    for s in ["0", "17", "+3", "99999999999", "12a", "+", "", " 1", "-", "99999999999x", "4294967295", "+4294967296"] {
        assert_eq!(parse_u32(s.as_bytes()), std_parse(s), "{s:?}");
    }
}

#[test]
fn trim_and_split_follow_str() {
    for s in ["  a b  ", "\u{a0}x\u{2028}", "\t\n", "", "one", " \u{3000}two\u{205f}words\u{85} "] {
        assert_eq!(trim_slice(s.as_bytes()), s.trim().as_bytes(), "{s:?}");
        let words: Vec<&[u8]> = split_whitespace(s.as_bytes());
        let expected: Vec<&[u8]> = s.split_whitespace().map(|w| w.as_bytes()).collect();
        assert_eq!(words, expected, "{s:?}");
    }
}

#[test]
fn encode_writes_header_then_pixels() {
    let bytes = encode_ppm(12, 3, &[5; 36]);
    let mut expected = b"P5\n12 3\n255\n".to_vec();
    expected.extend_from_slice(&[5; 36]);
    assert_eq!(bytes, expected);
}

#[test]
fn encoded_image_reads_back() {
    let pixels: Vec<u8> = (0..60).map(|i| (i * 7) as u8).collect();
    let bytes = encode_ppm(10, 6, &pixels);
    assert_eq!(parse_ppm(&bytes), Ok((pixels, 10, 6)));
    let empty = encode_ppm(0, 4000000000, &[]);
    assert_eq!(parse_ppm(&empty), Ok((vec![], 0, 4000000000)));
}

#[test]
fn utf8_check_agrees_with_std() {
    let cases: Vec<Vec<u8>> = vec![
        b"".to_vec(),
        b"P5\n".to_vec(),
        "h\u{e9}llo \u{20ac} \u{1f600}".as_bytes().to_vec(),
        vec![0x80],
        vec![0xc0, 0x80],
        vec![0xc1, 0xbf],
        vec![0xc2, 0x80],
        vec![0xdf, 0xbf],
        vec![0xe0, 0x80, 0x80],
        vec![0xe0, 0xa0, 0x80],
        vec![0xed, 0x9f, 0xbf],
        vec![0xed, 0xa0, 0x80],
        vec![0xef, 0xbf, 0xbf],
        vec![0xf0, 0x8f, 0xbf, 0xbf],
        vec![0xf0, 0x90, 0x80, 0x80],
        vec![0xf4, 0x8f, 0xbf, 0xbf],
        vec![0xf4, 0x90, 0x80, 0x80],
        vec![0xf5, 0x80, 0x80, 0x80],
        vec![0xf8, 0x88, 0x80, 0x80, 0x80],
        vec![0xff],
        vec![0xe2, 0x82],
        vec![b'a', 0xe2, 0x82, 0xac, b'b', 0xc3],
    ];
    for c in &cases {
        assert_eq!(is_utf8(c), std::str::from_utf8(c).is_ok(), "{c:?}");
    }
    for b0 in 0u8..=255 {
        for b1 in [0x00u8, 0x7f, 0x80, 0x9f, 0xa0, 0xbf, 0xc0, 0xff] {
            for b2 in [0x41u8, 0x80, 0xbf] {
                let v = vec![b0, b1, b2, 0x80];
                assert_eq!(is_utf8(&v), std::str::from_utf8(&v).is_ok(), "{v:?}");
            }
        }
    }
}
