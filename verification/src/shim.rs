//! Trusted declarations for items of other crates (and the few std items
//! vstd leaves unspecified) that the library relies on. Everything here is
//! believed, not verified: each item's doc comment names what it relies on.

use vstd::prelude::*;
use core::ops::{RangeFrom, RangeTo};

verus! {

/// `core::ops::RangeTo`, which vstd leaves unspecified. Its one public
/// field `end` is left visible.
#[verifier::external_type_specification]
#[verifier::reject_recursive_types(Idx)]
pub struct ExRangeTo<Idx>(RangeTo<Idx>);

/// `core::ops::RangeFrom`, which vstd leaves unspecified. Its one public
/// field `start` is left visible.
#[verifier::external_type_specification]
#[verifier::reject_recursive_types(Idx)]
pub struct ExRangeFrom<Idx>(RangeFrom<Idx>);

/// Relies on `core::ops::RangeInclusive::start`: it returns the lower
/// bound with which the range was made, which vstd models as `self@.start`.
pub assume_specification<Idx>[ core::ops::RangeInclusive::<Idx>::start ](
    r: &core::ops::RangeInclusive<Idx>,
) -> (ret: &Idx)
    ensures
        *ret == r@.start,
;

/// Relies on `core::ops::RangeInclusive::end`: it returns the upper
/// bound with which the range was made, which vstd models as `self@.end`.
pub assume_specification<Idx>[ core::ops::RangeInclusive::<Idx>::end ](
    r: &core::ops::RangeInclusive<Idx>,
) -> (ret: &Idx)
    ensures
        *ret == r@.end,
;

/// What `http_content_range::ContentRange::parse_bytes` makes of a
/// `Content-Range` header value: `Some((first, last, Some(complete)))` for
/// a fully specified range, `Some((first, last, None))` for a range whose
/// complete length is `*`, and `None` when the value carries no concrete
/// range (an unsatisfied `*/n` range, or no parse at all).
pub uninterp spec fn content_range_of(s: Seq<u8>) -> Option<(u64, u64, Option<u64>)>;

/// Whether the stored range information agrees with an abstract parse
/// result in the sense of [`content_range_of`].
pub open spec fn info_matches(
    info: crate::response::ContentRangeInfo,
    a: Option<(u64, u64, Option<u64>)>,
) -> bool {
    match a {
        Some((f, l, Some(c))) => info == (crate::response::ContentRangeInfo::Bytes {
            first_byte: f,
            last_byte: l,
            complete_length: c,
        }) && f <= l && l < c,
        Some((f, l, None)) => info == (crate::response::ContentRangeInfo::UnboundBytes {
            first_byte: f,
            last_byte: l,
        }) && f <= l,
        None => info is Unsatisfied || info is Unknown,
    }
}

/// Relies on `http_content_range::ContentRange::parse_bytes`: the result is
/// a function of the header bytes alone; its source rejects any range with
/// `first_byte > last_byte`, and any complete length not strictly greater
/// than `last_byte`.
#[verifier::external_body]
pub fn parse_content_range(s: &[u8]) -> (r: crate::response::ContentRangeInfo)
    ensures
        info_matches(r, content_range_of(s@)),
{
    match http_content_range::ContentRange::parse_bytes(s) {
        Some(http_content_range::ContentRange::Bytes(b)) => crate::response::ContentRangeInfo::Bytes {
            first_byte: b.first_byte,
            last_byte: b.last_byte,
            complete_length: b.complete_length,
        },
        Some(http_content_range::ContentRange::UnboundBytes(u)) => crate::response::ContentRangeInfo::UnboundBytes {
            first_byte: u.first_byte,
            last_byte: u.last_byte,
        },
        Some(http_content_range::ContentRange::Unsatisfied(u)) => crate::response::ContentRangeInfo::Unsatisfied {
            complete_length: u.complete_length,
        },
        None => crate::response::ContentRangeInfo::Unknown,
    }
}

/// The view of a list of header fields: each name and value as a byte
/// sequence, in order.
pub open spec fn fields_view(hs: Seq<(Vec<u8>, Vec<u8>)>) -> Seq<(Seq<u8>, Seq<u8>)> {
    hs.map_values(|h: (Vec<u8>, Vec<u8>)| (h.0@, h.1@))
}

/// What `httparse::parse_headers` makes of a header block: `None` when the
/// block is rejected or incomplete, otherwise the offset at which the
/// headers end (the start of the body) and the parsed `name: value` fields
/// in order.
pub uninterp spec fn header_block_of(s: Seq<u8>) -> Option<(nat, Seq<(Seq<u8>, Seq<u8>)>)>;

/// Relies on `httparse::parse_headers`: the result is a function of the
/// block alone; on success the returned offset is the count of bytes it
/// consumed of the block, so it is no larger than the block. A block of
/// more than ten fields is treated as unparseable, as the sources allot
/// ten slots.
#[verifier::external_body]
pub fn parse_header_block(block: &[u8]) -> (r: Option<(usize, Vec<(Vec<u8>, Vec<u8>)>)>)
    ensures
        match (r, header_block_of(block@)) {
            (Some(p), Some(q)) => p.0 == q.0 && p.0 <= block@.len() && fields_view(p.1@) == q.1,
            (None, None) => true,
            _ => false,
        },
{
    let mut headers = [httparse::EMPTY_HEADER; 10];
    match httparse::parse_headers(block, &mut headers) {
        Ok(httparse::Status::Complete((off, hs))) => {
            let mut v: Vec<(Vec<u8>, Vec<u8>)> = Vec::new();
            for h in hs.iter() {
                v.push((h.name.as_bytes().to_vec(), h.value.to_vec()));
            }
            Some((off, v))
        },
        _ => None,
    }
}

} // verus!
