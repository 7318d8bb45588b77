use byteranges::request::{HttpRange, RangeHeader};

fn test_canonical(header: &RangeHeader, expected: &str) {
    assert_eq!(String::from_utf8(header.to_value()).unwrap(), expected)
}

#[test]
fn first_500() {
    let mut rh = RangeHeader::default();
    rh.push(HttpRange::Range {
        start: 0,
        end: Some(499),
    });
    test_canonical(&rh, "bytes=0-499")
}

#[test]
fn second_500() {
    let mut rh = RangeHeader::default();
    rh.push(HttpRange::Range {
        start: 500,
        end: Some(999),
    });
    test_canonical(&rh, "bytes=500-999")
}

#[test]
fn final_500() {
    let mut rh = RangeHeader::default();
    rh.push(HttpRange::Suffix(500));
    test_canonical(&rh, "bytes=-500")
}

#[test]
fn from_9500() {
    let mut rh = RangeHeader::default();
    rh.push(HttpRange::Range {
        start: 9500,
        end: None,
    });
    test_canonical(&rh, "bytes=9500-")
}

#[test]
fn first_last() {
    let mut rh = RangeHeader::default();
    rh.push(HttpRange::Range {
        start: 0,
        end: Some(0),
    });
    rh.push(HttpRange::Suffix(1));
    test_canonical(&rh, "bytes=0-0,-1");
}

#[test]
fn multibytes() {
    let mut rh = RangeHeader::default();
    rh.push(HttpRange::Range {
        start: 500,
        end: Some(600),
    });
    rh.push(HttpRange::Range {
        start: 601,
        end: Some(999),
    });
    test_canonical(&rh, "bytes=500-600,601-999");
}

#[test]
fn multibytes_overlap() {
    let mut rh = RangeHeader::default();
    rh.push(HttpRange::Range {
        start: 500,
        end: Some(700),
    });
    rh.push(HttpRange::Range {
        start: 601,
        end: Some(999),
    });
    test_canonical(&rh, "bytes=500-700,601-999");
}

#[test]
fn from_range_exclusive() {
    let r: HttpRange = (50u64..100u64).into();
    assert_eq!(String::from_utf8(r.to_value()).unwrap(), "50-99")
}

#[test]
fn from_range_inclusive() {
    let r: HttpRange = (50u64..=100u64).into();
    assert_eq!(String::from_utf8(r.to_value()).unwrap(), "50-100")
}

#[test]
fn from_range_lower_unbounded() {
    let r: HttpRange = (..50u64).into();
    assert_eq!(String::from_utf8(r.to_value()).unwrap(), "0-49")
}

#[test]
fn from_range_upper_unbounded() {
    let r: HttpRange = (50u64..).into();
    assert_eq!(String::from_utf8(r.to_value()).unwrap(), "50-")
}

#[test]
fn from_iter() {
    let mut r = RangeHeader::default();
    r.extend(vec![
        (0u64..50u64).into(),
        (40u64..100u64).into(),
        (150u64..200u64).into(),
    ]);
    assert_eq!(String::from_utf8(r.to_value()).unwrap(), "bytes=0-49,40-99,150-199")
}

#[test]
fn empty_header_renders_no_value() {
    let rh = RangeHeader::default();
    assert_eq!(rh.to_value(), Vec::<u8>::new());
}

#[test]
fn custom_unit() {
    let mut rh = RangeHeader::new(b"items".to_vec());
    rh.push(HttpRange::Range {
        start: 1,
        end: Some(2),
    });
    test_canonical(&rh, "items=1-2");
}

#[test]
fn header_line_with_newline() {
    let mut rh = RangeHeader::default();
    rh.push(HttpRange::Range {
        start: 0,
        end: Some(499),
    });
    assert_eq!(
        String::from_utf8(rh.to_header(true)).unwrap(),
        "Range: bytes=0-499\r\n"
    );
    assert_eq!(
        String::from_utf8(rh.to_header(false)).unwrap(),
        "Range: bytes=0-499"
    );
}
