use byteranges::response::{
    parts, sparse_body, part_description, ContentRangeInfo, PartDesc, PartialHeaderParseError,
    ResponsePart,
};
use byteranges::sparse::{SeekFrom, SparseBody};

/// The reference resource: deterministic readable text, 3545 bytes.
fn read_text() -> Vec<u8> {
    let line = b"Lorem ipsum dolor sit amet, consectetur adipiscing elit, sed do eiusmod tempor.\n";
    let mut v = Vec::new();
    while v.len() < 3545 {
        let take = std::cmp::min(line.len(), 3545 - v.len());
        v.extend_from_slice(&line[..take]);
    }
    v
}

/// A synthetic single-range 206 response for the given `Range` request
/// value, served from the reference text, as raw HTTP/1 bytes.
fn make_response(range_value: &str) -> Vec<u8> {
    let text = read_text();
    let total = text.len();
    let (first, last) = match range_value {
        "bytes=50-100" => (50usize, 100usize),
        "bytes=3000-" => (3000, total - 1),
        "bytes=-100" => (total - 100, total - 1),
        _ => panic!("unknown fixture"),
    };
    let mut resp = format!(
        "HTTP/1.1 206 Partial Content\r\nContent-Type: text/plain\r\nContent-Range: bytes {}-{}/{}\r\n\r\n",
        first, last, total
    )
    .into_bytes();
    resp.extend_from_slice(&text[first..=last]);
    resp
}

/// The capability the library needs from a response, parsed out of raw
/// HTTP/1 bytes with httparse, as the original adapters do.
struct DummyResponse {
    status: u16,
    content_type: Option<Vec<u8>>,
    content_range: Option<Vec<u8>>,
    body: Vec<u8>,
}

impl DummyResponse {
    fn new(buf: &[u8]) -> Self {
        let mut hbuf = [httparse::EMPTY_HEADER; 64];
        let mut response = httparse::Response::new(&mut hbuf);
        let offset = match response
            .parse(buf)
            .expect("DummyResponse could not parse response bytes")
        {
            httparse::Status::Complete(c) => c,
            httparse::Status::Partial => panic!("partial parse"),
        };
        let mut content_type = None;
        let mut content_range = None;
        for h in response.headers.iter() {
            if h.name.eq_ignore_ascii_case("content-type") {
                content_type = Some(h.value.to_vec());
            } else if h.name.eq_ignore_ascii_case("content-range") {
                content_range = Some(h.value.to_vec());
            }
        }
        DummyResponse {
            status: response.code.unwrap(),
            content_type,
            content_range,
            body: buf[offset..].to_vec(),
        }
    }

    fn status_code(&self) -> u16 {
        self.status
    }

    fn body(self) -> Result<Vec<u8>, String> {
        Ok(self.body)
    }

    fn sparse_body(self) -> Result<SparseBody, byteranges::response::SparseBodyError> {
        sparse_body(
            self.status,
            self.content_type.as_ref(),
            self.content_range.as_ref(),
            self.body,
        )
    }
}

fn test_response<T, F: FnOnce(DummyResponse) -> T>(range_value: &str, test_fn: F) -> T {
    let buf = make_response(range_value);
    test_fn(DummyResponse::new(&buf))
}

#[test]
fn can_get_status() {
    test_response("bytes=-100", |r| {
        let status = r.status_code();
        assert_eq!(status, 206);
    })
}

#[test]
fn can_get_body() {
    test_response("bytes=50-100", |r| {
        let b = r.body().expect("body() failed");
        assert_eq!(b.len(), 51)
    })
}

#[test]
fn body_50_100() {
    let reference = read_text();
    test_response("bytes=50-100", |resp| {
        let mut bod = resp.sparse_body().unwrap();
        let buf = bod.read(150);
        assert_eq!(buf.len(), 150);
        assert_eq!(buf[..50], [0; 50]);
        assert_eq!(buf[50..=100], reference[50..=100]);
        assert_eq!(buf[101..150], [0; 49]);
    });
}

#[test]
fn body_3000_() {
    let reference = read_text();
    test_response("bytes=3000-", |resp| {
        let mut bod = resp.sparse_body().unwrap();
        bod.seek(SeekFrom::Start(2900)).unwrap();
        let buf = bod.read(200);
        assert_eq!(buf.len(), 200);
        assert_eq!(buf[..100], [0; 100]);
        assert_eq!(buf[100..], reference[3000..3100]);
    });
}

#[test]
#[allow(non_snake_case)]
fn body__100() {
    let reference = read_text();
    test_response("bytes=-100", |resp| {
        let mut bod = resp.sparse_body().unwrap();
        bod.seek(SeekFrom::End(-200)).unwrap();
        let buf = bod.read(1_000_000);
        assert_eq!(buf.len(), 200);
        assert_eq!(buf[..100], [0; 100]);
        assert_eq!(buf[100..], reference[reference.len() - 100..]);
    });
}

#[test]
fn classify_416_unsatisfied() {
    let r = part_description(416, None, None);
    assert_eq!(r.err().unwrap(), PartialHeaderParseError::Unsatisfied);
}

#[test]
fn classify_other_status() {
    let r = part_description(404, None, None);
    assert_eq!(r.err().unwrap(), PartialHeaderParseError::NotPartialResponse(404));
}

#[test]
fn classify_missing_content_type() {
    let r = part_description(206, None, None);
    assert_eq!(r.err().unwrap(), PartialHeaderParseError::NoContentType);
}

#[test]
fn classify_missing_content_range() {
    let ct = b"text/plain".to_vec();
    let r = part_description(206, Some(&ct), None);
    assert_eq!(r.err().unwrap(), PartialHeaderParseError::NoContentRange);
}

#[test]
fn classify_bad_content_range() {
    let ct = b"text/plain".to_vec();
    let cr = b"pages 1-2/3".to_vec();
    let r = part_description(206, Some(&ct), Some(&cr));
    assert_eq!(
        r.err().unwrap(),
        PartialHeaderParseError::ContentRangeParse(b"pages 1-2/3".to_vec())
    );
}

#[test]
fn classify_unsatisfied_content_range_rejected() {
    let ct = b"text/plain".to_vec();
    let cr = b"bytes */420".to_vec();
    let r = part_description(206, Some(&ct), Some(&cr));
    assert_eq!(
        r.err().unwrap(),
        PartialHeaderParseError::ContentRangeParse(b"bytes */420".to_vec())
    );
}

#[test]
fn classify_single_range() {
    let ct = b"  text/plain ".to_vec();
    let cr = b"bytes 50-100/3545".to_vec();
    match part_description(206, Some(&ct), Some(&cr)) {
        Ok(PartDesc::Single {
            content_range,
            content_type,
        }) => {
            assert_eq!(
                content_range,
                ContentRangeInfo::Bytes {
                    first_byte: 50,
                    last_byte: 100,
                    complete_length: 3545
                }
            );
            assert_eq!(content_type, b"text/plain".to_vec());
        }
        other => panic!("expected a single-range description, got {:?}", other.is_ok()),
    }
}

#[test]
fn classify_multipart_boundary() {
    let ct = b"multipart/byteranges; boundary=3d6b6a416f9b5".to_vec();
    match part_description(206, Some(&ct), None) {
        Ok(PartDesc::Multi { boundary }) => {
            assert_eq!(boundary, b"--3d6b6a416f9b5".to_vec());
        }
        _ => panic!("expected a multipart description"),
    }
}

#[test]
fn classify_multipart_quoted_boundary() {
    let ct = b"multipart/byteranges; boundary=\"tok\"".to_vec();
    match part_description(206, Some(&ct), None) {
        Ok(PartDesc::Multi { boundary }) => {
            assert_eq!(boundary, b"--tok".to_vec());
        }
        _ => panic!("expected a multipart description"),
    }
}

/// A multipart body carrying two ranges of the reference text.
fn multipart_body() -> Vec<u8> {
    let text = read_text();
    let mut b = Vec::new();
    b.extend_from_slice(b"--BOUND\r\n");
    b.extend_from_slice(b"Content-Type: text/plain\r\n");
    b.extend_from_slice(format!("Content-Range: bytes 50-100/{}\r\n", text.len()).as_bytes());
    b.extend_from_slice(b"\r\n");
    b.extend_from_slice(&text[50..=100]);
    b.extend_from_slice(b"\r\n--BOUND\r\n");
    b.extend_from_slice(b"Content-Type: text/plain\r\n");
    b.extend_from_slice(format!("Content-Range: bytes 200-299/{}\r\n", text.len()).as_bytes());
    b.extend_from_slice(b"\r\n");
    b.extend_from_slice(&text[200..300]);
    b.extend_from_slice(b"\r\n--BOUND--");
    b
}

#[test]
fn multipart_scan_yields_both_parts_then_stops() {
    let ct = b"multipart/byteranges; boundary=BOUND".to_vec();
    let mut sc = parts(206, Some(&ct), None, multipart_body()).unwrap();
    let p1 = sc.next().unwrap().unwrap();
    assert_eq!(p1.content_type(), &b"text/plain".to_vec());
    assert_eq!(p1.offset_len(), Some((50, 51)));
    assert_eq!(p1.total_size(), Some(3545));
    assert_eq!(p1.data(), &read_text()[50..=100].to_vec());
    let p2 = sc.next().unwrap().unwrap();
    assert_eq!(p2.offset_len(), Some((200, 100)));
    assert!(sc.next().is_none());
    assert!(sc.next().is_none());
}

#[test]
fn multipart_sparse_reconstruction() {
    let text = read_text();
    let ct = b"multipart/byteranges; boundary=BOUND".to_vec();
    let mut bod = sparse_body(206, Some(&ct), None, multipart_body()).unwrap();
    let all = bod.read(4000);
    assert_eq!(all.len(), text.len());
    for i in 0..text.len() {
        if (50..=100).contains(&i) || (200..300).contains(&i) {
            assert_eq!(all[i], text[i]);
        } else {
            assert_eq!(all[i], 0);
        }
    }
}

#[test]
fn multipart_missing_header_is_error() {
    let mut b = Vec::new();
    b.extend_from_slice(b"--BOUND\r\n");
    b.extend_from_slice(b"Content-Type: text/plain\r\n");
    b.extend_from_slice(b"\r\ndata\r\n--BOUND--");
    let ct = b"multipart/byteranges; boundary=BOUND".to_vec();
    let mut sc = parts(206, Some(&ct), None, b).unwrap();
    assert!(sc.next().unwrap().is_err());
    assert!(sc.next().is_none());
}

#[test]
fn full_body_round_trip() {
    let text = read_text();
    let mut bod = sparse_body(200, None, None, text.clone()).unwrap();
    let all = bod.read(4000);
    assert_eq!(all, text);
}

#[test]
fn duplicate_start_keeps_longer() {
    let long = vec![7u8; 8];
    let short = vec![9u8; 5];
    let p_short = ResponsePart::new(
        b"text/plain".to_vec(),
        ContentRangeInfo::UnboundBytes {
            first_byte: 10,
            last_byte: 14,
        },
        short,
    );
    let p_long = ResponsePart::new(
        b"text/plain".to_vec(),
        ContentRangeInfo::UnboundBytes {
            first_byte: 10,
            last_byte: 17,
        },
        long,
    );
    let mut bod = SparseBody::partial(vec![p_short, p_long]);
    let all = bod.read(100);
    assert_eq!(all.len(), 18);
    assert_eq!(all[..10], [0; 10]);
    assert_eq!(all[10..], [7u8; 8]);
}

#[test]
fn unusable_parts_are_dropped() {
    let p = ResponsePart::new(b"text/plain".to_vec(), ContentRangeInfo::Unknown, vec![1, 2, 3]);
    let mut bod = SparseBody::partial(vec![p]);
    assert_eq!(bod.read(10), Vec::<u8>::new());
}

#[test]
fn seek_before_start_fails() {
    let mut bod = SparseBody::full(vec![1, 2, 3, 4]);
    assert!(bod.seek(SeekFrom::Current(-1)).is_err());
    assert_eq!(bod.seek(SeekFrom::End(-4)).unwrap(), 0);
    assert_eq!(bod.read(2), vec![1, 2]);
    assert_eq!(bod.seek(SeekFrom::Current(1)).unwrap(), 3);
    assert_eq!(bod.read(5), vec![4]);
}

#[test]
fn read_past_end_is_empty() {
    let mut bod = SparseBody::full(vec![1, 2, 3]);
    bod.seek(SeekFrom::Start(10)).unwrap();
    assert_eq!(bod.read(5), Vec::<u8>::new());
}

#[test]
fn malformed_opening_boundary_is_error_then_end() {
    // The opening boundary is followed by neither CRLF nor two hyphens.
    let body = b"--BOUNDxyzzy".to_vec();
    let ct = b"multipart/byteranges; boundary=BOUND".to_vec();
    let mut sc = parts(206, Some(&ct), None, body).unwrap();
    assert!(sc.next().unwrap().is_err());
    assert!(sc.next().is_none());
}

#[test]
fn sparse_body_wraps_classification_errors() {
    match sparse_body(416, None, None, Vec::new()) {
        Err(byteranges::response::SparseBodyError::Header(e)) => {
            assert_eq!(e, PartialHeaderParseError::Unsatisfied)
        }
        _ => panic!("expected a wrapped classification failure"),
    }
    match sparse_body(301, None, None, Vec::new()) {
        Err(byteranges::response::SparseBodyError::Header(e)) => {
            assert_eq!(e, PartialHeaderParseError::NotPartialResponse(301))
        }
        _ => panic!("expected a wrapped classification failure"),
    }
}

#[test]
fn multipart_empty_sequence_on_immediate_terminal() {
    let body = b"--BOUND--".to_vec();
    let ct = b"multipart/byteranges; boundary=BOUND".to_vec();
    let mut sc = parts(206, Some(&ct), None, body).unwrap();
    assert!(sc.next().is_none());
}
