//! Classification of partial-content responses and the parts they carry.
//!
//! Given a status code and the `Content-Type` / `Content-Range` header
//! values, [`part_description`] decides whether a response is
//! unsatisfiable, a single byte range, or a `multipart/byteranges` body,
//! and extracts the boundary token or the single range's metadata.

use vstd::prelude::*;
use crate::ascii::{
    copy_range, find_from, is_ws, match_bytes_at, strip_matching, strip_spec, trim_spec,
    trim_start_spec, trim_ws, trim_ws_start,
};
use crate::request::DASH;
use crate::shim::{content_range_of, info_matches, parse_content_range};

verus! {

/// `"` in ASCII.
pub const QUOTE: u8 = 34;

/// `'` in ASCII.
pub const APOSTROPHE: u8 = 39;

/// Parsed `Content-Range` semantics, mirroring the wire forms
/// `bytes first-last/complete`, `bytes first-last/*`, `bytes */complete`,
/// and anything unparseable.
#[derive(Debug, Clone, Copy, PartialEq, Eq, Structural)]
pub enum ContentRangeInfo {
    /// A concrete range with a known complete length.
    Bytes { first_byte: u64, last_byte: u64, complete_length: u64 },
    /// A concrete range whose complete length is unknown (`*`).
    UnboundBytes { first_byte: u64, last_byte: u64 },
    /// The requested range could not be satisfied; only the complete
    /// length is reported.
    Unsatisfied { complete_length: u64 },
    /// The header value did not parse into a recognized form.
    Unknown,
}

impl ContentRangeInfo {
    /// The concrete range this information delivers, if any:
    /// `(first, last, complete length if known)`.
    pub open spec fn concrete(self) -> Option<(u64, u64, Option<u64>)> {
        match self {
            ContentRangeInfo::Bytes { first_byte, last_byte, complete_length } => Some(
                (first_byte, last_byte, Some(complete_length)),
            ),
            ContentRangeInfo::UnboundBytes { first_byte, last_byte } => Some(
                (first_byte, last_byte, None),
            ),
            ContentRangeInfo::Unsatisfied { .. } => None,
            ContentRangeInfo::Unknown => None,
        }
    }
}

/// The offset and length delivered by an abstract range parse: the range
/// `first..=last` covers offset `first` for `last - first + 1` bytes.
/// Nothing is delivered when there is no concrete range, the bounds are
/// inverted, or the length cannot be represented.
pub open spec fn offset_len_of(a: Option<(u64, u64, Option<u64>)>) -> Option<(u64, u64)> {
    match a {
        Some((f, l, _)) => if f <= l && l - f < u64::MAX {
            Some((f, (l - f + 1) as u64))
        } else {
            None
        },
        None => None,
    }
}

/// The complete length reported by an abstract range parse, if any.
pub open spec fn total_size_of(a: Option<(u64, u64, Option<u64>)>) -> Option<u64> {
    match a {
        Some((_, _, c)) => c,
        None => None,
    }
}

/// A component part of a 206 response: its content type, its
/// `Content-Range` information, and its raw bytes.
#[derive(Debug, Clone)]
pub struct ResponsePart {
    content_type: Vec<u8>,
    content_range: ContentRangeInfo,
    data: Vec<u8>,
}

/// The abstract value of a [`ResponsePart`]: the content type bytes, the
/// abstracted `Content-Range` parse, and the data bytes.
pub struct PartValue {
    /// The part's content type, verbatim.
    pub content_type: Seq<u8>,
    /// The concrete range delivered by the part's `Content-Range`, if any.
    pub range: Option<(u64, u64, Option<u64>)>,
    /// The part's payload bytes.
    pub data: Seq<u8>,
}

impl View for ResponsePart {
    type V = PartValue;

    closed spec fn view(&self) -> PartValue {
        PartValue {
            content_type: self.content_type@,
            range: self.content_range.concrete(),
            data: self.data@,
        }
    }
}

impl ResponsePart {
    /// The stored range information (exactly as parsed, not abstracted).
    pub closed spec fn spec_content_range(&self) -> ContentRangeInfo {
        self.content_range
    }

    /// Assembles a part from its pieces.
    pub fn new(content_type: Vec<u8>, content_range: ContentRangeInfo, data: Vec<u8>) -> (r: Self)
        ensures
            r@.content_type == content_type@,
            r@.range == content_range.concrete(),
            r@.data == data@,
            r.spec_content_range() == content_range,
    {
        ResponsePart { content_type, content_range, data }
    }

    /// The part's content type, verbatim from its header.
    pub fn content_type(&self) -> (r: &Vec<u8>)
        ensures
            r@ == self@.content_type,
    {
        &self.content_type
    }

    /// The offset and length of the part according to its `Content-Range`.
    ///
    /// [`None`] if the range was unsatisfied or unparseable, or if its
    /// bounds do not describe a representable span.
    pub fn offset_len(&self) -> (r: Option<(u64, u64)>)
        ensures
            r == offset_len_of(self@.range),
    {
        match self.content_range {
            ContentRangeInfo::Bytes { first_byte, last_byte, .. } => {
                if first_byte <= last_byte && last_byte - first_byte < u64::MAX {
                    Some((first_byte, last_byte - first_byte + 1))
                } else {
                    None
                }
            },
            ContentRangeInfo::UnboundBytes { first_byte, last_byte } => {
                if first_byte <= last_byte && last_byte - first_byte < u64::MAX {
                    Some((first_byte, last_byte - first_byte + 1))
                } else {
                    None
                }
            },
            _ => None,
        }
    }

    /// The complete resource size according to the part's `Content-Range`,
    /// if the header expressed it.
    pub fn total_size(&self) -> (r: Option<u64>)
        ensures
            r == total_size_of(self@.range),
    {
        match self.content_range {
            ContentRangeInfo::Bytes { complete_length, .. } => Some(complete_length),
            _ => None,
        }
    }

    /// The bytes in the part.
    pub fn data(&self) -> (r: &Vec<u8>)
        ensures
            r@ == self@.data,
    {
        &self.data
    }
}

/// A description of partial response headers: either a single part, whose
/// `Content-Range` and `Content-Type` are known, or a
/// `multipart/byteranges` response, whose boundary is known (stored with
/// its leading `--`, matching the wire delimiter).
pub enum PartDesc {
    Single { content_range: ContentRangeInfo, content_type: Vec<u8> },
    Multi { boundary: Vec<u8> },
}

/// Failure to interpret a response's status line and headers.
#[derive(Debug, Clone, PartialEq, Eq)]
pub enum PartialHeaderParseError {
    /// The range could not be satisfied (status 416).
    Unsatisfied,
    /// The status was neither 206 nor one handled elsewhere; carries the
    /// status seen.
    NotPartialResponse(u16),
    /// A 206 response without a `Content-Type` header.
    NoContentType,
    /// A single-range 206 response without a `Content-Range` header.
    NoContentRange,
    /// A `Content-Range` value that did not parse into a recognized
    /// concrete form; carries the value verbatim.
    ContentRangeParse(Vec<u8>),
}

/// Failure to parse one part of a multipart body: malformed or truncated
/// part headers. Deliberately coarse; the scanner does not distinguish
/// sub-causes.
#[derive(Debug, Clone, Copy, PartialEq, Eq, Structural)]
pub struct PartParseError;

/// `multipart/byteranges` in ASCII.
pub open spec fn byteranges_rep() -> Seq<u8> {
    seq![
        109u8, 117, 108, 116, 105, 112, 97, 114, 116, 47, 98, 121, 116, 101, 114, 97, 110, 103,
        101, 115,
    ]
}

/// Whether a (trimmed) content type announces a `multipart/byteranges`
/// body.
pub open spec fn is_multipart_ct(t: Seq<u8>) -> bool {
    t.len() >= 20 && t.subrange(0, 20) == byteranges_rep()
}

/// The boundary delimiter taken from a (trimmed) multipart content type
/// `t`: the bytes after the parameter's leading whitespace and the nine
/// bytes of `boundary=`, with quote and apostrophe edges stripped, behind
/// a leading `--`. The parameter name itself is not inspected, mirroring
/// the wire convention that `boundary` is the only parameter sent.
pub open spec fn boundary_spec(t: Seq<u8>) -> Seq<u8> {
    let after = if t.len() >= 21 {
        trim_start_spec(t.subrange(21, t.len() as int))
    } else {
        Seq::<u8>::empty()
    };
    let tok = if after.len() >= 9 {
        after.subrange(9, after.len() as int)
    } else {
        Seq::<u8>::empty()
    };
    seq![DASH, DASH] + strip_spec(strip_spec(tok, QUOTE), APOSTROPHE)
}

/// Builds the ASCII bytes of `multipart/byteranges`.
fn byteranges_bytes() -> (r: Vec<u8>)
    ensures
        r@ == byteranges_rep(),
{
    let mut v: Vec<u8> = Vec::new();
    v.push(109);  // 'm'
    v.push(117);  // 'u'
    v.push(108);  // 'l'
    v.push(116);  // 't'
    v.push(105);  // 'i'
    v.push(112);  // 'p'
    v.push(97);  // 'a'
    v.push(114);  // 'r'
    v.push(116);  // 't'
    v.push(47);  // '/'
    v.push(98);  // 'b'
    v.push(121);  // 'y'
    v.push(116);  // 't'
    v.push(101);  // 'e'
    v.push(114);  // 'r'
    v.push(97);  // 'a'
    v.push(110);  // 'n'
    v.push(103);  // 'g'
    v.push(101);  // 'e'
    v.push(115);  // 's'
    assert(v@ =~= byteranges_rep());
    v
}

/// Extracts the boundary delimiter from a trimmed multipart content type.
fn boundary_from_ct(t: &[u8]) -> (r: Vec<u8>)
    ensures
        r@ == boundary_spec(t@),
{
    let mut out: Vec<u8> = Vec::new();
    out.push(DASH);
    out.push(DASH);
    assert(out@ =~= seq![DASH, DASH]);
    let tok: Vec<u8>;
    if t.len() >= 21 {
        let rest = copy_range(t, 21, t.len());
        let after = trim_ws_start(rest.as_slice());
        if after.len() >= 9 {
            tok = copy_range(after.as_slice(), 9, after.len());
        } else {
            tok = Vec::new();
            assert(tok@ =~= Seq::<u8>::empty());
        }
    } else {
        tok = Vec::new();
        assert(tok@ =~= Seq::<u8>::empty());
    }
    let s1 = strip_matching(tok.as_slice(), QUOTE);
    let s2 = strip_matching(s1.as_slice(), APOSTROPHE);
    let mut k: usize = 0;
    while k < s2.len()
        invariant
            k <= s2@.len(),
            out@ == seq![DASH, DASH] + s2@.take(k as int),
        decreases s2@.len() - k,
    {
        out.push(s2[k]);
        k += 1;
        assert(out@ =~= seq![DASH, DASH] + s2@.take(k as int));
    }
    assert(s2@.take(s2@.len() as int) =~= s2@);
    out
}

/// Copies a byte vector.
pub fn clone_bytes(v: &Vec<u8>) -> (r: Vec<u8>)
    ensures
        r@ == v@,
{
    let r = v.clone();
    proof {
        assert(r@ =~= v@);
    }
    r
}

/// Decides what kind of partial response the status code and headers
/// describe.
///
/// Status 416 always fails with [`PartialHeaderParseError::Unsatisfied`];
/// any status other than 206 fails with
/// [`PartialHeaderParseError::NotPartialResponse`] (status 200 is handled
/// upstream as a whole resource and does not reach classification). A 206
/// response must name a `Content-Type`; if, after trimming, it begins with
/// `multipart/byteranges`, the boundary is extracted from its parameter,
/// otherwise a `Content-Range` header is required and must parse into a
/// concrete range.
pub fn part_description(
    status: u16,
    content_type: Option<&Vec<u8>>,
    content_range: Option<&Vec<u8>>,
) -> (r: Result<PartDesc, PartialHeaderParseError>)
    ensures
        status == 416 ==> r == Err::<PartDesc, _>(PartialHeaderParseError::Unsatisfied),
        status != 416 && status != 206 ==> r == Err::<PartDesc, _>(
            PartialHeaderParseError::NotPartialResponse(status),
        ),
        status == 206 ==> match content_type {
            None => r == Err::<PartDesc, _>(PartialHeaderParseError::NoContentType),
            Some(ct) => {
                let t = trim_spec(ct@);
                if is_multipart_ct(t) {
                    r matches Ok(PartDesc::Multi { boundary }) && boundary@ == boundary_spec(t)
                } else {
                    match content_range {
                        None => r == Err::<PartDesc, _>(PartialHeaderParseError::NoContentRange),
                        Some(crv) => match content_range_of(crv@) {
                            Some(_) => r matches Ok(
                                PartDesc::Single { content_range, content_type },
                            ) && info_matches(content_range, content_range_of(crv@))
                                && content_type@ == t,
                            None => r matches Err(
                                PartialHeaderParseError::ContentRangeParse(v),
                            ) && v@ == crv@,
                        },
                    }
                }
            },
        },
{
    if status == 416 {
        return Err(PartialHeaderParseError::Unsatisfied);
    }
    if status != 206 {
        return Err(PartialHeaderParseError::NotPartialResponse(status));
    }
    let ct = match content_type {
        Some(c) => c,
        None => {
            return Err(PartialHeaderParseError::NoContentType);
        },
    };
    let t = trim_ws(ct.as_slice());
    let marker = byteranges_bytes();
    if match_bytes_at(t.as_slice(), marker.as_slice(), 0) {
        let boundary = boundary_from_ct(t.as_slice());
        return Ok(PartDesc::Multi { boundary });
    }
    assert(!is_multipart_ct(trim_spec(ct@)));
    let crv = match content_range {
        Some(c) => c,
        None => {
            return Err(PartialHeaderParseError::NoContentRange);
        },
    };
    let info = parse_content_range(crv.as_slice());
    match info {
        ContentRangeInfo::Bytes { .. } | ContentRangeInfo::UnboundBytes { .. } => Ok(
            PartDesc::Single { content_range: info, content_type: t },
        ),
        _ => Err(PartialHeaderParseError::ContentRangeParse(clone_bytes(crv))),
    }
}

/// `\r\n`, the part separator tail.
pub open spec fn crlf_tail() -> Seq<u8> {
    seq![13u8, 10]
}

/// `--`, the terminal boundary tail.
pub open spec fn dashes_tail() -> Seq<u8> {
    seq![45u8, 45]
}

/// `content-range` in ASCII.
pub open spec fn content_range_name() -> Seq<u8> {
    seq![99u8, 111, 110, 116, 101, 110, 116, 45, 114, 97, 110, 103, 101]
}

/// `content-type` in ASCII.
pub open spec fn content_type_name() -> Seq<u8> {
    seq![99u8, 111, 110, 116, 101, 110, 116, 45, 116, 121, 112, 101]
}

/// Builds the ASCII bytes of `content-range`.
fn content_range_name_bytes() -> (r: Vec<u8>)
    ensures
        r@ == content_range_name(),
{
    let mut v: Vec<u8> = Vec::new();
    v.push(99);  // 'c'
    v.push(111);  // 'o'
    v.push(110);  // 'n'
    v.push(116);  // 't'
    v.push(101);  // 'e'
    v.push(110);  // 'n'
    v.push(116);  // 't'
    v.push(45);  // '-'
    v.push(114);  // 'r'
    v.push(97);  // 'a'
    v.push(110);  // 'n'
    v.push(103);  // 'g'
    v.push(101);  // 'e'
    assert(v@ =~= content_range_name());
    v
}

/// Builds the ASCII bytes of `content-type`.
fn content_type_name_bytes() -> (r: Vec<u8>)
    ensures
        r@ == content_type_name(),
{
    let mut v: Vec<u8> = Vec::new();
    v.push(99);  // 'c'
    v.push(111);  // 'o'
    v.push(110);  // 'n'
    v.push(116);  // 't'
    v.push(101);  // 'e'
    v.push(110);  // 'n'
    v.push(116);  // 't'
    v.push(45);  // '-'
    v.push(116);  // 't'
    v.push(121);  // 'y'
    v.push(112);  // 'p'
    v.push(101);  // 'e'
    assert(v@ =~= content_type_name());
    v
}

/// The value of the first field whose name equals `name` up to ASCII case.
pub open spec fn first_named(fields: Seq<(Seq<u8>, Seq<u8>)>, name: Seq<u8>) -> Option<Seq<u8>>
    decreases fields.len(),
{
    if fields.len() == 0 {
        None
    } else if crate::ascii::eq_ignore_case(fields[0].0, name) {
        Some(fields[0].1)
    } else {
        first_named(fields.drop_first(), name)
    }
}

/// Finds the value of the first field with the given (case-insensitive)
/// name.
fn find_named(fields: &Vec<(Vec<u8>, Vec<u8>)>, name: &Vec<u8>) -> (r: Option<Vec<u8>>)
    ensures
        match r {
            Some(v) => first_named(crate::shim::fields_view(fields@), name@) == Some(v@),
            None => first_named(crate::shim::fields_view(fields@), name@) is None,
        },
{
    let ghost fv = crate::shim::fields_view(fields@);
    proof {
        assert(fv.len() == fields@.len());
    }
    proof {
        assert(fv.skip(0) =~= fv);
    }
    let mut i: usize = 0;
    while i < fields.len()
        invariant
            i <= fields@.len(),
            fv == crate::shim::fields_view(fields@),
            fv.len() == fields@.len(),
            first_named(fv, name@) == first_named(fv.skip(i as int), name@),
        decreases fields@.len() - i,
    {
        proof {
            assert(fv[i as int] == (fields@[i as int].0@, fields@[i as int].1@));
        }
        if crate::ascii::eq_ignore_case_bytes(fields[i].0.as_slice(), name.as_slice()) {
            proof {
                assert(fv.skip(i as int)[0] == fv[i as int]);
            }
            return Some(clone_bytes(&fields[i].1));
        }
        proof {
            assert(fv.skip(i as int)[0] == fv[i as int]);
            assert(fv.skip(i as int).drop_first() =~= fv.skip(i + 1));
        }
        i += 1;
    }
    proof {
        assert(fv.skip(i as int).len() == 0);
    }
    None
}

/// The abstract value of a [`PartDesc`].
pub enum DescValue {
    /// A single-range response: the abstracted `Content-Range` parse and
    /// the content type.
    Single { range: Option<(u64, u64, Option<u64>)>, content_type: Seq<u8> },
    /// A multipart response: the boundary delimiter, leading `--`
    /// included.
    Multi { boundary: Seq<u8> },
}

impl View for PartDesc {
    type V = DescValue;

    closed spec fn view(&self) -> DescValue {
        match self {
            PartDesc::Single { content_range, content_type } => DescValue::Single {
                range: content_range.concrete(),
                content_type: content_type@,
            },
            PartDesc::Multi { boundary } => DescValue::Multi { boundary: boundary@ },
        }
    }
}

/// The abstract state of a [`Parts`] scanner.
pub struct ScanValue {
    /// What kind of response is being scanned.
    pub desc: DescValue,
    /// The whole response body.
    pub body: Seq<u8>,
    /// Whether the sequence is exhausted.
    pub done: bool,
    /// Whether the opening boundary was malformed, which surfaces one
    /// error element before the sequence ends.
    pub failed: bool,
    /// The position in the body at which the next part's headers begin.
    pub at: int,
}

/// The outcome of asking the scanner for one more element: the successor
/// state, and nothing (sequence over), one part, or one error.
pub open spec fn step_spec(s: ScanValue) -> (ScanValue, Option<Result<PartValue, ()>>) {
    let fail = (ScanValue { done: true, ..s }, Some(Err::<PartValue, ()>(())));
    if s.done {
        (s, None)
    } else if s.failed {
        (ScanValue { done: true, ..s }, Some(Err(())))
    } else {
        match s.desc {
            DescValue::Single { range, content_type } => (
                ScanValue { done: true, ..s },
                Some(Ok(PartValue { content_type, range, data: s.body })),
            ),
            DescValue::Multi { boundary } => match find_from(s.body, boundary, s.at) {
                None => (s, None),
                Some(j) => {
                    let ns = j + boundary.len() + 2;
                    if j < s.at + 2 || ns > s.body.len() {
                        fail
                    } else {
                        let tail = s.body.subrange(j + boundary.len(), ns);
                        if tail == crlf_tail() || tail == dashes_tail() {
                            let block = s.body.subrange(s.at, j - 2);
                            match crate::shim::header_block_of(block) {
                                None => fail,
                                Some((off, fields)) => {
                                    let ctv = first_named(fields, content_type_name());
                                    let crv = first_named(fields, content_range_name());
                                    if ctv is Some && crv is Some {
                                        (
                                            ScanValue {
                                                done: tail == dashes_tail(),
                                                at: ns,
                                                ..s
                                            },
                                            Some(
                                                Ok(
                                                    PartValue {
                                                        content_type: ctv.unwrap(),
                                                        range: content_range_of(crv.unwrap()),
                                                        data: block.skip(off as int),
                                                    },
                                                ),
                                            ),
                                        )
                                    } else {
                                        fail
                                    }
                                },
                            }
                        } else {
                            fail
                        }
                    }
                },
            },
        }
    }
}

/// The scanner's starting state for a given description and body: for a
/// multipart response the opening boundary is located and the two bytes
/// after it decide whether parts follow (`\r\n`), the sequence is empty
/// (`--`), or the opening is malformed.
pub open spec fn init_spec(desc: DescValue, body: Seq<u8>) -> ScanValue {
    let idle = ScanValue { desc, body, done: false, failed: false, at: 0 };
    match desc {
        DescValue::Single { .. } => idle,
        DescValue::Multi { boundary } => match find_from(body, boundary, 0) {
            None => idle,
            Some(j) => {
                let ns = j + boundary.len() + 2;
                if ns > body.len() {
                    ScanValue { failed: true, ..idle }
                } else {
                    let tail = body.subrange(j + boundary.len(), ns);
                    if tail == crlf_tail() {
                        ScanValue { at: ns, ..idle }
                    } else if tail == dashes_tail() {
                        ScanValue { done: true, ..idle }
                    } else {
                        ScanValue { failed: true, ..idle }
                    }
                }
            },
        },
    }
}

/// Lazy, finite, non-restartable scanner over the parts of a partial
/// response body. Produced by [`Parts::new`]; driven by [`Parts::next`].
pub struct Parts {
    part_desc: PartDesc,
    body: Vec<u8>,
    is_done: bool,
    failed: bool,
    next_start: usize,
}

impl View for Parts {
    type V = ScanValue;

    closed spec fn view(&self) -> ScanValue {
        ScanValue {
            desc: self.part_desc@,
            body: self.body@,
            done: self.is_done,
            failed: self.failed,
            at: self.next_start as int,
        }
    }
}

impl Parts {
    /// The scan position never runs past the body.
    pub closed spec fn wf(&self) -> bool {
        self.next_start <= self.body@.len()
    }

    /// Starts a scanner: for a single-range response the whole body is the
    /// one part; for a multipart response the opening boundary is located
    /// as [`init_spec`] describes.
    pub fn new(part_desc: PartDesc, body: Vec<u8>) -> (r: Self)
        ensures
            r.wf(),
            r@ == init_spec(part_desc@, body@),
    {
        let is_multi = match &part_desc {
            PartDesc::Single { .. } => false,
            PartDesc::Multi { .. } => true,
        };
        if !is_multi {
            return Parts { part_desc, body, is_done: false, failed: false, next_start: 0 };
        }
        let mut is_done = false;
        let mut failed = false;
        let mut next_start: usize = 0;
        match &part_desc {
            PartDesc::Single { .. } => (),
            PartDesc::Multi { boundary } => {
                match crate::ascii::find_bytes_from(body.as_slice(), boundary.as_slice(), 0) {
                    None => (),
                    Some(j) => {
                        proof {
                            crate::ascii::lemma_find_from_some(body@, boundary@, 0, j as int);
                        }
                        let blen = boundary.len();
                        if body.len() - j < blen || body.len() - j - blen < 2 {
                            failed = true;
                            proof {
                                assert(j + boundary@.len() + 2 > body@.len());
                            }
                        } else {
                            let e = j + blen;
                            let b0 = body[e];
                            let b1 = body[e + 1];
                            proof {
                                assert(body@.subrange(e as int, e + 2)[0] == body@[e as int]);
                                assert(body@.subrange(e as int, e + 2)[1] == body@[e + 1]);
                            }
                            if b0 == 13 && b1 == 10 {
                                next_start = e + 2;
                                proof {
                                    assert(body@.subrange(e as int, e + 2) =~= crlf_tail());
                                }
                            } else if b0 == 45 && b1 == 45 {
                                is_done = true;
                                proof {
                                    assert(body@.subrange(e as int, e + 2) =~= dashes_tail());
                                }
                            } else {
                                failed = true;
                                proof {
                                    assert(body@.subrange(e as int, e + 2) != crlf_tail());
                                    assert(body@.subrange(e as int, e + 2) != dashes_tail());
                                }
                            }
                        }
                    },
                }
            },
        }
        Parts { part_desc, body, is_done, failed, next_start }
    }

    /// Produces the next part, an error element, or nothing once the
    /// sequence is exhausted, exactly as [`step_spec`] describes. A
    /// malformed part — a boundary not followed by `\r\n` or `--`, an
    /// unparseable header block, or a part missing either of its
    /// `Content-Type` and `Content-Range` headers — is reported once and
    /// ends the sequence.
    pub fn next(&mut self) -> (r: Option<Result<ResponsePart, PartParseError>>)
        requires
            old(self).wf(),
        ensures
            final(self).wf(),
            final(self)@ == step_spec(old(self)@).0,
            match (r, step_spec(old(self)@).1) {
                (None, None) => true,
                (Some(Ok(p)), Some(Ok(pv))) => p@ == pv,
                (Some(Err(_)), Some(Err(_))) => true,
                _ => false,
            },
    {
        if self.is_done {
            return None;
        }
        if self.failed {
            self.is_done = true;
            return Some(Err(PartParseError));
        }
        let boundary: &Vec<u8> = match &self.part_desc {
            PartDesc::Single { content_range, content_type } => {
                let part = ResponsePart {
                    content_type: clone_bytes(content_type),
                    content_range: *content_range,
                    data: clone_bytes(&self.body),
                };
                self.is_done = true;
                return Some(Ok(part));
            },
            PartDesc::Multi { boundary } => boundary,
        };
        let j = match crate::ascii::find_bytes_from(
            self.body.as_slice(),
            boundary.as_slice(),
            self.next_start,
        ) {
            None => {
                return None;
            },
            Some(j) => j,
        };
        proof {
            crate::ascii::lemma_find_from_some(
                self.body@,
                boundary@,
                self.next_start as int,
                j as int,
            );
        }
        let blen = boundary.len();
        if j - self.next_start < 2 || self.body.len() - j < blen || self.body.len() - j - blen
            < 2 {
            self.is_done = true;
            proof {
                let sv = old(self)@;
                let bnd = boundary@;
                assert(j < sv.at + 2 || j + bnd.len() + 2 > sv.body.len());
            }
            return Some(Err(PartParseError));
        }
        let e = j + blen;
        let ns = e + 2;
        let b0 = self.body[e];
        let b1 = self.body[e + 1];
        proof {
            assert(self.body@.subrange(e as int, ns as int)[0] == self.body@[e as int]);
            assert(self.body@.subrange(e as int, ns as int)[1] == self.body@[e + 1]);
        }
        let tail_crlf = b0 == 13 && b1 == 10;
        let tail_dashes = b0 == 45 && b1 == 45;
        if !tail_crlf && !tail_dashes {
            self.is_done = true;
            proof {
                assert(self.body@.subrange(e as int, ns as int) != crlf_tail());
                assert(self.body@.subrange(e as int, ns as int) != dashes_tail());
            }
            return Some(Err(PartParseError));
        }
        proof {
            if tail_crlf {
                assert(self.body@.subrange(e as int, ns as int) =~= crlf_tail());
            } else {
                assert(self.body@.subrange(e as int, ns as int) =~= dashes_tail());
            }
            assert(crlf_tail() != dashes_tail()) by {
                assert(crlf_tail()[0] == 13 && dashes_tail()[0] == 45);
            }
        }
        let block = copy_range(self.body.as_slice(), self.next_start, j - 2);
        let parsed = match crate::shim::parse_header_block(block.as_slice()) {
            None => {
                self.is_done = true;
                return Some(Err(PartParseError));
            },
            Some(p) => p,
        };
        let (off, fields) = parsed;
        let ctv = match find_named(&fields, &content_type_name_bytes()) {
            Some(v) => v,
            None => {
                self.is_done = true;
                return Some(Err(PartParseError));
            },
        };
        let crv = match find_named(&fields, &content_range_name_bytes()) {
            Some(v) => v,
            None => {
                self.is_done = true;
                return Some(Err(PartParseError));
            },
        };
        let data = copy_range(block.as_slice(), off, block.len());
        let info = parse_content_range(crv.as_slice());
        let part = ResponsePart { content_type: ctv, content_range: info, data };
        self.is_done = tail_dashes;
        self.next_start = ns;
        proof {
            assert(block@.skip(off as int) =~= block@.subrange(off as int, block@.len() as int));
        }
        Some(Ok(part))
    }
}

/// A produced part moves the scanner strictly forward (or finishes it).
pub proof fn lemma_step_advances(s: ScanValue)
    requires
        step_spec(s).1 matches Some(Ok(_)),
    ensures
        !s.done,
        step_spec(s).0.done || (0 <= s.at && s.at < step_spec(s).0.at && step_spec(s).0.at
            <= s.body.len()),
{
    match s.desc {
        DescValue::Single { .. } => {},
        DescValue::Multi { boundary } => {
            match find_from(s.body, boundary, s.at) {
                None => {},
                Some(j) => {
                    crate::ascii::lemma_find_from_some(s.body, boundary, s.at, j);
                },
            }
        },
    }
}

/// A finished scanner stays finished and yields nothing more.
pub proof fn lemma_scan_done(s: ScanValue)
    requires
        s.done,
    ensures
        step_spec(s) == (s, None::<Result<PartValue, ()>>),
{
}

/// Everything a scanner will ever yield, in order: the parts until the
/// sequence ends, or an error if one is reported along the way.
pub open spec fn collect_spec(s: ScanValue) -> Result<Seq<PartValue>, ()>
    decreases (if s.done {
        0int
    } else {
        1int
    }), (if 0 <= s.at <= s.body.len() {
        s.body.len() - s.at
    } else {
        0int
    })
        via collect_spec_dec
{
    let (s2, out) = step_spec(s);
    match out {
        None => Ok(Seq::empty()),
        Some(Err(_)) => Err(()),
        Some(Ok(p)) => match collect_spec(s2) {
            Ok(rest) => Ok(seq![p] + rest),
            Err(e) => Err(e),
        },
    }
}

#[via_fn]
proof fn collect_spec_dec(s: ScanValue) {
    match step_spec(s).1 {
        Some(Ok(p)) => {
            lemma_step_advances(s);
        },
        _ => {},
    }
}

/// Failure to build the sparse reconstruction of a response: the status
/// line and headers could not be classified, a multipart part could not
/// be parsed, or the collaborator could not deliver the body (reported by
/// the caller that read it).
#[derive(Debug)]
pub enum SparseBodyError {
    /// Classification failed.
    Header(PartialHeaderParseError),
    /// A part of the multipart body failed to parse.
    Part(PartParseError),
    /// The response body could not be read at all.
    Body,
}

/// What scanning a body under a given description yields.
pub open spec fn scan_outcome(desc: DescValue, body: Seq<u8>) -> Result<Seq<PartValue>, ()> {
    collect_spec(init_spec(desc, body))
}

/// Whether `b` is the sparse reconstruction of the delivered parts
/// `pvs`: well-formed, rewound, as long as the parts claim, and — when
/// the surviving parts do not overlap — byte-for-byte the delivered data
/// over zero filler.
pub open spec fn reconstructed_from(b: crate::sparse::SparseBody, pvs: Seq<PartValue>) -> bool {
    &&& b.wf()
    &&& b.spec_pos() == 0
    &&& b.spec_total() as int == crate::sparse::total_of(crate::sparse::usable(pvs))
    &&& crate::sparse::no_overlap(crate::sparse::usable(pvs)) ==> forall|i: int|
        0 <= i < b.spec_total() ==> b.contents()[i] == crate::sparse::expected_byte(
            crate::sparse::usable(pvs),
            i,
        )
}

/// The parts of a partial response, ready to be drawn one at a time.
///
/// Fails exactly when classification fails, with that failure; otherwise
/// the scanner starts on the body under the classified description.
pub fn parts(
    status: u16,
    content_type: Option<&Vec<u8>>,
    content_range: Option<&Vec<u8>>,
    body: Vec<u8>,
) -> (r: Result<Parts, PartialHeaderParseError>)
    ensures
        status == 416 ==> r == Err::<Parts, _>(PartialHeaderParseError::Unsatisfied),
        status != 416 && status != 206 ==> r == Err::<Parts, _>(
            PartialHeaderParseError::NotPartialResponse(status),
        ),
        status == 206 ==> match content_type {
            None => r == Err::<Parts, _>(PartialHeaderParseError::NoContentType),
            Some(ct) => {
                let t = trim_spec(ct@);
                if is_multipart_ct(t) {
                    r matches Ok(sc) && sc.wf() && sc@ == init_spec(
                        DescValue::Multi { boundary: boundary_spec(t) },
                        body@,
                    )
                } else {
                    match content_range {
                        None => r == Err::<Parts, _>(PartialHeaderParseError::NoContentRange),
                        Some(crv) => match content_range_of(crv@) {
                            Some(rg) => r matches Ok(sc) && sc.wf() && sc@ == init_spec(
                                DescValue::Single { range: Some(rg), content_type: t },
                                body@,
                            ),
                            None => r matches Err(PartialHeaderParseError::ContentRangeParse(v))
                                && v@ == crv@,
                        },
                    }
                }
            },
        },
{
    let desc = match part_description(status, content_type, content_range) {
        Ok(d) => d,
        Err(e) => {
            return Err(e);
        },
    };
    Ok(Parts::new(desc, body))
}

/// The sparse reconstruction of a whole response.
///
/// A 200 response is the complete resource, kept as one piece. Any other
/// response is classified — every classification failure surfaces as
/// [`SparseBodyError::Header`] — then scanned; a malformed part surfaces
/// as [`SparseBodyError::Part`], and otherwise the delivered parts are
/// reassembled with zero-filled gaps.
pub fn sparse_body(
    status: u16,
    content_type: Option<&Vec<u8>>,
    content_range: Option<&Vec<u8>>,
    body: Vec<u8>,
) -> (r: Result<crate::sparse::SparseBody, SparseBodyError>)
    ensures
        status == 200 ==> (r matches Ok(b) && b.wf() && b.contents() == body@ && b.spec_total()
            == body@.len() && b.spec_pos() == 0),
        status == 416 ==> r == Err::<crate::sparse::SparseBody, _>(
            SparseBodyError::Header(PartialHeaderParseError::Unsatisfied),
        ),
        status != 200 && status != 416 && status != 206 ==> r == Err::<
            crate::sparse::SparseBody,
            _,
        >(SparseBodyError::Header(PartialHeaderParseError::NotPartialResponse(status))),
        status == 206 ==> match content_type {
            None => r == Err::<crate::sparse::SparseBody, _>(
                SparseBodyError::Header(PartialHeaderParseError::NoContentType),
            ),
            Some(ct) => {
                let t = trim_spec(ct@);
                if is_multipart_ct(t) {
                    match scan_outcome(DescValue::Multi { boundary: boundary_spec(t) }, body@) {
                        Ok(pvs) => r matches Ok(b) && reconstructed_from(b, pvs),
                        Err(_) => r matches Err(SparseBodyError::Part(_)),
                    }
                } else {
                    match content_range {
                        None => r == Err::<crate::sparse::SparseBody, _>(
                            SparseBodyError::Header(PartialHeaderParseError::NoContentRange),
                        ),
                        Some(crv) => match content_range_of(crv@) {
                            Some(rg) => match scan_outcome(
                                DescValue::Single { range: Some(rg), content_type: t },
                                body@,
                            ) {
                                Ok(pvs) => r matches Ok(b) && reconstructed_from(b, pvs),
                                Err(_) => r matches Err(SparseBodyError::Part(_)),
                            },
                            None => r matches Err(
                                SparseBodyError::Header(PartialHeaderParseError::ContentRangeParse(v)),
                            ) && v@ == crv@,
                        },
                    }
                }
            },
        },
{
    if status == 200 {
        return Ok(crate::sparse::SparseBody::full(body));
    }
    let desc = match part_description(status, content_type, content_range) {
        Ok(d) => d,
        Err(e) => {
            return Err(SparseBodyError::Header(e));
        },
    };
    let mut sc = Parts::new(desc, body);
    let ghost st0 = sc@;
    let mut collected: Vec<ResponsePart> = Vec::new();
    let mut failed = false;
    proof {
        assert(crate::sparse::views(collected@) =~= Seq::<PartValue>::empty());
    }
    loop
        invariant_except_break
            match collect_spec(sc@) {
                Ok(rest) => collect_spec(st0) == Ok::<Seq<PartValue>, ()>(
                    crate::sparse::views(collected@) + rest,
                ),
                Err(_) => collect_spec(st0) is Err,
            },
            !failed,
        invariant
            sc.wf(),
        ensures
            failed ==> collect_spec(st0) is Err,
            !failed ==> collect_spec(st0) == Ok::<Seq<PartValue>, ()>(
                crate::sparse::views(collected@),
            ),
        decreases (if sc@.done {
            0int
        } else {
            1int
        }), (if 0 <= sc@.at <= sc@.body.len() {
            sc@.body.len() - sc@.at
        } else {
            0int
        }),
    {
        let ghost pre = sc@;
        match sc.next() {
            None => {
                proof {
                    assert(collect_spec(pre) == Ok::<Seq<PartValue>, ()>(Seq::empty()));
                    assert(crate::sparse::views(collected@) + Seq::<PartValue>::empty()
                        =~= crate::sparse::views(collected@));
                }
                break ;
            },
            Some(Err(_)) => {
                proof {
                    assert(collect_spec(pre) is Err);
                }
                failed = true;
                break ;
            },
            Some(Ok(p)) => {
                let ghost oldc = collected@;
                collected.push(p);
                proof {
                    lemma_step_advances(pre);
                    assert(crate::sparse::views(collected@) =~= crate::sparse::views(oldc)
                        + seq![p@]);
                    match collect_spec(sc@) {
                        Ok(rest) => {
                            assert(collect_spec(pre) == Ok::<Seq<PartValue>, ()>(
                                seq![p@] + rest,
                            ));
                            assert(crate::sparse::views(oldc) + (seq![p@] + rest)
                                =~= crate::sparse::views(collected@) + rest);
                        },
                        Err(_) => {},
                    }
                }
            },
        }
    }
    if failed {
        return Err(SparseBodyError::Part(PartParseError));
    }
    let b = crate::sparse::SparseBody::partial(collected);
    Ok(b)
}

/// `boundary=` in ASCII.
pub open spec fn boundary_param_rep() -> Seq<u8> {
    seq![98u8, 111, 117, 110, 100, 97, 114, 121, 61]
}

/// Classifying a 206 response whose content type is
/// `multipart/byteranges; boundary=X`, for any parameter token `X` free
/// of whitespace, quotes and apostrophes, always yields the boundary
/// `--X`: such a content type is recognized as multipart, and the
/// extracted delimiter is the token behind two hyphens.
pub proof fn lemma_multipart_boundary(x: Seq<u8>)
    requires
        x.len() > 0,
        forall|i: int|
            0 <= i < x.len() ==> !is_ws(#[trigger] x[i]) && x[i] != QUOTE && x[i] != APOSTROPHE,
    ensures
        ({
            let ct = byteranges_rep() + seq![59u8, 32] + boundary_param_rep() + x;
            &&& trim_spec(ct) == ct
            &&& is_multipart_ct(ct)
            &&& boundary_spec(ct) == seq![DASH, DASH] + x
        }),
{
    let ct = byteranges_rep() + seq![59u8, 32] + boundary_param_rep() + x;
    assert(ct.len() == 31 + x.len());
    assert(ct[0] == 109 && !is_ws(ct[0]));
    crate::ascii::lemma_ws_run_at(ct, 0);
    assert(ct.last() == x.last() && !is_ws(ct.last()));
    assert(trim_start_spec(ct) =~= ct);
    crate::ascii::lemma_ws_run_end_at(ct, ct.len() as int);
    assert(trim_spec(ct) =~= ct);
    assert(ct.subrange(0, 20) =~= byteranges_rep());
    let rest = ct.subrange(21, ct.len() as int);
    assert(rest.len() == 10 + x.len());
    assert(rest[0] == 32 && is_ws(rest[0]));
    assert(rest[1] == 98 && !is_ws(rest[1]));
    crate::ascii::lemma_ws_run_at(rest, 1);
    let after = trim_start_spec(rest);
    assert(after =~= rest.subrange(1, rest.len() as int));
    assert(after.len() == 9 + x.len());
    let tok = after.subrange(9, after.len() as int);
    assert(tok =~= x);
    assert(x[0] != QUOTE && x.last() != QUOTE);
    crate::ascii::lemma_eq_run_at(x, QUOTE, 0);
    crate::ascii::lemma_eq_run_end_at(x, QUOTE, x.len() as int);
    assert(strip_spec(x, QUOTE) =~= x);
    assert(x[0] != APOSTROPHE && x.last() != APOSTROPHE);
    crate::ascii::lemma_eq_run_at(x, APOSTROPHE, 0);
    crate::ascii::lemma_eq_run_end_at(x, APOSTROPHE, x.len() as int);
    assert(strip_spec(x, APOSTROPHE) =~= x);
    assert(boundary_spec(ct) == seq![DASH, DASH] + x);
}

} // verus!
