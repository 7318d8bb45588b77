//! Byte-range request specifiers and the `Range` request header.
//!
//! A [`HttpRange`] is one range specifier; a [`RangeHeader`] is an ordered
//! sequence of them together with a unit, rendered as `unit=spec1,spec2,...`.

use vstd::prelude::*;

verus! {

/// `-` in ASCII.
pub const DASH: u8 = 45;

/// `,` in ASCII.
pub const COMMA: u8 = 44;

/// `=` in ASCII.
pub const EQUALS: u8 = 61;

/// A single range in a `Range` request.
#[derive(Clone, Copy)]
pub enum HttpRange {
    /// A range with a given start point and possibly an end point
    /// (otherwise running to the end of the resource). Both bounds are
    /// inclusive byte offsets.
    Range { start: u64, end: Option<u64> },
    /// A range defined as the number of bytes at the end.
    Suffix(u64),
}

/// The shortest decimal representation of `n`, as ASCII digit bytes.
pub open spec fn dec_rep(n: nat) -> Seq<u8>
    decreases n,
{
    if n < 10 {
        seq![(48 + n) as u8]
    } else {
        dec_rep(n / 10).push((48 + n % 10) as u8)
    }
}

/// Appends the decimal representation of `n` to `out`.
fn push_dec(out: &mut Vec<u8>, n: u64)
    ensures
        final(out)@ == old(out)@ + dec_rep(n as nat),
    decreases n,
{
    if n >= 10 {
        push_dec(out, n / 10);
        out.push(48 + (n % 10) as u8);
        assert(final(out)@ =~= old(out)@ + dec_rep(n as nat));
    } else {
        out.push(48 + n as u8);
        assert(final(out)@ =~= old(out)@ + dec_rep(n as nat));
    }
}

/// The wire form of one range specifier: `start-`, `start-end`, or `-suffix`.
pub open spec fn range_rep(r: HttpRange) -> Seq<u8> {
    match r {
        HttpRange::Range { start, end: Some(e) } => dec_rep(start as nat) + seq![DASH] + dec_rep(
            e as nat,
        ),
        HttpRange::Range { start, end: None } => dec_rep(start as nat) + seq![DASH],
        HttpRange::Suffix(n) => seq![DASH] + dec_rep(n as nat),
    }
}

/// The specifiers joined by single commas, in order.
pub open spec fn joined_reps(rs: Seq<HttpRange>) -> Seq<u8>
    decreases rs.len(),
{
    if rs.len() == 0 {
        Seq::empty()
    } else if rs.len() == 1 {
        range_rep(rs[0])
    } else {
        joined_reps(rs.drop_last()) + seq![COMMA] + range_rep(rs.last())
    }
}

/// The rendered header value: nothing at all when no specifier was pushed,
/// otherwise `unit=` followed by the comma-joined specifiers.
pub open spec fn value_rep(unit: Seq<u8>, rs: Seq<HttpRange>) -> Seq<u8> {
    if rs.len() == 0 {
        Seq::empty()
    } else {
        unit + seq![EQUALS] + joined_reps(rs)
    }
}

/// `bytes`, the default range unit, in ASCII.
pub open spec fn bytes_unit() -> Seq<u8> {
    seq![98u8, 121, 116, 101, 115]
}

/// `Range: `, the header name and separator, in ASCII.
pub open spec fn header_name_rep() -> Seq<u8> {
    seq![82u8, 97, 110, 103, 101, 58, 32]
}

/// `\r\n`.
pub open spec fn crlf_rep() -> Seq<u8> {
    seq![13u8, 10]
}

/// Appends the wire form of one specifier to `out`.
fn push_range_rep(out: &mut Vec<u8>, r: &HttpRange)
    ensures
        final(out)@ == old(out)@ + range_rep(*r),
{
    match r {
        HttpRange::Range { start, end } => {
            push_dec(out, *start);
            out.push(DASH);
            match end {
                Some(e) => {
                    push_dec(out, *e);
                    assert(final(out)@ =~= old(out)@ + range_rep(*r));
                },
                None => {
                    assert(final(out)@ =~= old(out)@ + range_rep(*r));
                },
            }
        },
        HttpRange::Suffix(n) => {
            out.push(DASH);
            push_dec(out, *n);
            assert(final(out)@ =~= old(out)@ + range_rep(*r));
        },
    }
}

impl HttpRange {
    /// The wire form of this one specifier, e.g. `50-99` or `-500`.
    pub fn to_value(&self) -> (r: Vec<u8>)
        ensures
            r@ == range_rep(*self),
    {
        let mut out: Vec<u8> = Vec::new();
        push_range_rep(&mut out, self);
        assert(out@ =~= range_rep(*self));
        out
    }
}

/// Representation of a HTTP `Range` header: a unit (by default `bytes`)
/// and the ordered, possibly repeating, range specifiers pushed so far.
pub struct RangeHeader {
    unit: Vec<u8>,
    ranges: Vec<HttpRange>,
}

impl RangeHeader {
    /// The header's unit, e.g. `bytes`.
    pub closed spec fn spec_unit(&self) -> Seq<u8> {
        self.unit@
    }

    /// The specifiers pushed so far, in push order.
    pub closed spec fn spec_ranges(&self) -> Seq<HttpRange> {
        self.ranges@
    }

    /// Create a new header with the given unit.
    pub fn new(unit: Vec<u8>) -> (r: Self)
        ensures
            r.spec_unit() == unit@,
            r.spec_ranges() == Seq::<HttpRange>::empty(),
    {
        let r = Self { unit, ranges: Vec::new() };
        proof {
            assert(r.spec_ranges() =~= Seq::<HttpRange>::empty());
        }
        r
    }

    /// Add a new range.
    pub fn push(&mut self, range: HttpRange)
        ensures
            final(self).spec_unit() == old(self).spec_unit(),
            final(self).spec_ranges() == old(self).spec_ranges().push(range),
    {
        self.ranges.push(range);
    }

    /// Add a number of new ranges, in order.
    pub fn extend(&mut self, ranges: Vec<HttpRange>)
        ensures
            final(self).spec_unit() == old(self).spec_unit(),
            final(self).spec_ranges() == old(self).spec_ranges() + ranges@,
    {
        let mut i: usize = 0;
        while i < ranges.len()
            invariant
                i <= ranges.len(),
                self.spec_unit() == old(self).spec_unit(),
                self.spec_ranges() == old(self).spec_ranges() + ranges@.take(i as int),
            decreases ranges.len() - i,
        {
            self.ranges.push(ranges[i]);
            i += 1;
            assert(self.spec_ranges() =~= old(self).spec_ranges() + ranges@.take(i as int));
        }
        assert(ranges@.take(ranges@.len() as int) =~= ranges@);
    }

    /// The rendered header value, `unit=spec1,spec2,...`; an empty header
    /// renders no value at all.
    pub fn to_value(&self) -> (r: Vec<u8>)
        ensures
            r@ == value_rep(self.spec_unit(), self.spec_ranges()),
    {
        let mut out: Vec<u8> = Vec::new();
        if self.ranges.len() == 0 {
            assert(out@ =~= value_rep(self.spec_unit(), self.spec_ranges()));
            return out;
        }
        let mut j: usize = 0;
        while j < self.unit.len()
            invariant
                j <= self.unit.len(),
                out@ == self.unit@.take(j as int),
            decreases self.unit.len() - j,
        {
            out.push(self.unit[j]);
            j += 1;
            assert(out@ =~= self.unit@.take(j as int));
        }
        assert(out@ =~= self.unit@);
        out.push(EQUALS);
        let mut i: usize = 0;
        while i < self.ranges.len()
            invariant
                i <= self.ranges.len(),
                self.ranges.len() > 0,
                out@ == self.spec_unit() + seq![EQUALS] + joined_reps(self.spec_ranges().take(i as int)),
            decreases self.ranges.len() - i,
        {
            if i > 0 {
                out.push(COMMA);
            }
            push_range_rep(&mut out, &self.ranges[i]);
            proof {
                let rs = self.spec_ranges();
                assert(rs.take(i + 1).drop_last() =~= rs.take(i as int));
                assert(rs.take(i + 1).last() == rs[i as int]);
                if i == 0 {
                    assert(out@ =~= self.spec_unit() + seq![EQUALS] + joined_reps(rs.take(i + 1)));
                } else {
                    assert(out@ =~= self.spec_unit() + seq![EQUALS] + joined_reps(rs.take(i + 1)));
                }
            }
            i += 1;
        }
        assert(self.spec_ranges().take(self.ranges@.len() as int) =~= self.spec_ranges());
        out
    }

    /// The full header line, `Range: <value>`, with a trailing CRLF when
    /// `newline` is set.
    pub fn to_header(&self, newline: bool) -> (r: Vec<u8>)
        ensures
            r@ == header_name_rep() + value_rep(self.spec_unit(), self.spec_ranges()) + (
            if newline {
                crlf_rep()
            } else {
                Seq::<u8>::empty()
            }),
    {
        let mut out: Vec<u8> = Vec::new();
        out.push(82);  // 'R'
        out.push(97);  // 'a'
        out.push(110);  // 'n'
        out.push(103);  // 'g'
        out.push(101);  // 'e'
        out.push(58);  // ':'
        out.push(32);  // ' '
        assert(out@ =~= header_name_rep());
        let mut value = self.to_value();
        out.append(&mut value);
        if newline {
            out.push(13);
            out.push(10);
            assert(out@ =~= header_name_rep() + value_rep(self.spec_unit(), self.spec_ranges())
                + crlf_rep());
        } else {
            assert(out@ =~= header_name_rep() + value_rep(self.spec_unit(), self.spec_ranges())
                + Seq::<u8>::empty());
        }
        out
    }
}

impl Default for RangeHeader {
    /// An empty header whose unit is `bytes`.
    fn default() -> (r: Self)
        ensures
            r.spec_unit() == bytes_unit(),
            r.spec_ranges() == Seq::<HttpRange>::empty(),
    {
        let mut unit: Vec<u8> = Vec::new();
        unit.push(98);  // 'b'
        unit.push(121);  // 'y'
        unit.push(116);  // 't'
        unit.push(101);  // 'e'
        unit.push(115);  // 's'
        assert(unit@ =~= bytes_unit());
        let r = Self { unit, ranges: Vec::new() };
        proof {
            assert(r.spec_ranges() =~= Seq::<HttpRange>::empty());
        }
        r
    }
}

/// The inclusive end bound equivalent to an exclusive end bound `e`:
/// `e - 1`, except that an (empty) exclusive bound of zero is pinned to
/// zero, since a specifier cannot express an empty range.
pub open spec fn end_of_exclusive(e: u64) -> u64 {
    if e == 0 {
        0
    } else {
        (e - 1) as u64
    }
}

impl From<core::ops::Range<u64>> for HttpRange {
    /// A half-open range `a..b` becomes the specifier `{start: a, end: Some(b - 1)}`.
    fn from(v: core::ops::Range<u64>) -> (r: HttpRange) {
        HttpRange::Range { start: v.start, end: Some(if v.end == 0 { 0 } else { v.end - 1 }) }
    }
}

impl vstd::std_specs::convert::FromSpecImpl<core::ops::Range<u64>> for HttpRange {
    open spec fn obeys_from_spec() -> bool {
        true
    }

    open spec fn from_spec(v: core::ops::Range<u64>) -> HttpRange {
        HttpRange::Range { start: v.start, end: Some(end_of_exclusive(v.end)) }
    }
}

impl From<core::ops::RangeInclusive<u64>> for HttpRange {
    /// An inclusive range `a..=b` becomes the specifier `{start: a, end: Some(b)}`.
    fn from(v: core::ops::RangeInclusive<u64>) -> (r: HttpRange) {
        HttpRange::Range { start: *v.start(), end: Some(*v.end()) }
    }
}

impl vstd::std_specs::convert::FromSpecImpl<core::ops::RangeInclusive<u64>> for HttpRange {
    open spec fn obeys_from_spec() -> bool {
        true
    }

    open spec fn from_spec(v: core::ops::RangeInclusive<u64>) -> HttpRange {
        HttpRange::Range { start: v@.start, end: Some(v@.end) }
    }
}

impl From<core::ops::RangeTo<u64>> for HttpRange {
    /// A range `..b` with no lower bound starts at zero: `{start: 0, end: Some(b - 1)}`.
    fn from(v: core::ops::RangeTo<u64>) -> (r: HttpRange) {
        HttpRange::Range { start: 0, end: Some(if v.end == 0 { 0 } else { v.end - 1 }) }
    }
}

impl vstd::std_specs::convert::FromSpecImpl<core::ops::RangeTo<u64>> for HttpRange {
    open spec fn obeys_from_spec() -> bool {
        true
    }

    open spec fn from_spec(v: core::ops::RangeTo<u64>) -> HttpRange {
        HttpRange::Range { start: 0, end: Some(end_of_exclusive(v.end)) }
    }
}

impl From<core::ops::RangeFrom<u64>> for HttpRange {
    /// A range `a..` with no upper bound runs to the end of the resource:
    /// `{start: a, end: None}`.
    fn from(v: core::ops::RangeFrom<u64>) -> (r: HttpRange) {
        HttpRange::Range { start: v.start, end: None }
    }
}

impl vstd::std_specs::convert::FromSpecImpl<core::ops::RangeFrom<u64>> for HttpRange {
    open spec fn obeys_from_spec() -> bool {
        true
    }

    open spec fn from_spec(v: core::ops::RangeFrom<u64>) -> HttpRange {
        HttpRange::Range { start: v.start, end: None }
    }
}

} // verus!
