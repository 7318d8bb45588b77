//! The sparse reconstruction of a partially fetched resource.
//!
//! A [`SparseBody`] partitions the address space `[0, total)` into
//! contiguous segments, each either real delivered bytes or a run of
//! synthesized zero bytes, and exposes the whole as one seekable,
//! readable stream.

use vstd::prelude::*;
use crate::response::{clone_bytes, ResponsePart};

verus! {

/// A seek origin: from the start, from the end, or from the current
/// position.
#[derive(Debug, Clone, Copy, PartialEq, Eq, Structural)]
pub enum SeekFrom {
    /// An absolute position.
    Start(u64),
    /// An offset relative to the end of the stream.
    End(i64),
    /// An offset relative to the current position.
    Current(i64),
}

/// A seek that would land before the start of the stream, or beyond what
/// a position can represent.
#[derive(Debug, Clone, Copy, PartialEq, Eq, Structural)]
pub struct SeekError;

/// One piece of the partition: delivered bytes, or a zero-filled gap.
/// `start` is the segment's absolute offset, `len` the width it covers.
pub enum Segment {
    /// Real bytes delivered at `start`. Positions past the end of
    /// `bytes` (if the delivered slice is shorter than the declared
    /// width) read as zero.
    Data { start: u64, len: u64, bytes: Vec<u8> },
    /// `len` zero bytes at `start`, generated on demand.
    Filler { start: u64, len: u64 },
}

/// A segment's absolute start offset.
pub open spec fn seg_start(s: Segment) -> int {
    match s {
        Segment::Data { start, .. } => start as int,
        Segment::Filler { start, .. } => start as int,
    }
}

/// The width a segment covers.
pub open spec fn seg_len(s: Segment) -> int {
    match s {
        Segment::Data { len, .. } => len as int,
        Segment::Filler { len, .. } => len as int,
    }
}

/// The byte a segment yields at relative position `k`.
pub open spec fn seg_byte(s: Segment, k: int) -> u8 {
    match s {
        Segment::Data { bytes, .. } => if k < bytes@.len() {
            bytes@[k]
        } else {
            0
        },
        Segment::Filler { .. } => 0,
    }
}

/// All bytes a segment yields, in order.
pub open spec fn seg_rep(s: Segment) -> Seq<u8> {
    Seq::new(seg_len(s) as nat, |k: int| seg_byte(s, k))
}

/// The bytes of a whole segment list, in order.
pub open spec fn contents_of(segs: Seq<Segment>) -> Seq<u8>
    decreases segs.len(),
{
    if segs.len() == 0 {
        Seq::empty()
    } else {
        contents_of(segs.drop_last()) + seg_rep(segs.last())
    }
}

/// The segments tile `[0, total)` exactly: the first starts at zero, each
/// starts where its predecessor ends, and the last ends at `total`.
pub open spec fn segs_wf(segs: Seq<Segment>, total: int) -> bool {
    &&& (segs.len() == 0 ==> total == 0)
    &&& (segs.len() > 0 ==> seg_start(segs[0]) == 0 && seg_start(segs.last()) + seg_len(
        segs.last(),
    ) == total)
    &&& forall|j: int|
        1 <= j < segs.len() ==> #[trigger] seg_start(segs[j]) == seg_start(segs[j - 1]) + seg_len(
            segs[j - 1],
        )
    &&& forall|j: int| 0 <= j < segs.len() ==> #[trigger] seg_len(segs[j]) >= 0
}

/// Appending a segment appends its bytes.
pub proof fn lemma_contents_push(segs: Seq<Segment>, s: Segment)
    ensures
        contents_of(segs.push(s)) == contents_of(segs) + seg_rep(s),
{
    assert(segs.push(s).drop_last() =~= segs);
    assert(segs.push(s).last() == s);
}

/// A prefix of a well-formed tiling is a well-formed tiling of what it
/// covers.
pub proof fn lemma_segs_wf_prefix(segs: Seq<Segment>, total: int)
    requires
        segs_wf(segs, total),
        segs.len() > 0,
    ensures
        segs_wf(segs.drop_last(), seg_start(segs.last())),
{
    let p = segs.drop_last();
    if p.len() > 0 {
        assert(seg_start(p[0]) == 0);
        assert(seg_start(segs[segs.len() - 1]) == seg_start(segs[segs.len() - 2]) + seg_len(
            segs[segs.len() - 2],
        ));
        assert(forall|j: int|
            1 <= j < p.len() ==> #[trigger] seg_start(p[j]) == seg_start(p[j - 1]) + seg_len(
                p[j - 1],
            ));
    }
}

/// A well-formed tiling of `[0, total)` holds exactly `total` bytes.
pub proof fn lemma_contents_len(segs: Seq<Segment>, total: int)
    requires
        segs_wf(segs, total),
    ensures
        contents_of(segs).len() == total,
    decreases segs.len(),
{
    if segs.len() > 0 {
        lemma_segs_wf_prefix(segs, total);
        lemma_contents_len(segs.drop_last(), seg_start(segs.last()));
    }
}

/// In a well-formed tiling, segments only grow rightward: any later
/// segment starts at or after the end of any earlier one.
pub proof fn lemma_seg_order(segs: Seq<Segment>, total: int, j1: int, j2: int)
    requires
        segs_wf(segs, total),
        0 <= j1 < j2 < segs.len(),
    ensures
        seg_start(segs[j1]) + seg_len(segs[j1]) <= seg_start(segs[j2]),
    decreases j2 - j1,
{
    if j1 + 1 < j2 {
        lemma_seg_order(segs, total, j1 + 1, j2);
    }
}

/// The byte at absolute position `i` of a well-formed tiling is the byte
/// of whichever segment covers `i`.
pub proof fn lemma_contents_index(segs: Seq<Segment>, total: int, k: int, i: int)
    requires
        segs_wf(segs, total),
        0 <= k < segs.len(),
        seg_start(segs[k]) <= i < seg_start(segs[k]) + seg_len(segs[k]),
    ensures
        0 <= i < contents_of(segs).len(),
        contents_of(segs)[i] == seg_byte(segs[k], i - seg_start(segs[k])),
    decreases segs.len(),
{
    lemma_contents_len(segs, total);
    lemma_segs_wf_prefix(segs, total);
    let p = segs.drop_last();
    let last = segs.last();
    lemma_contents_len(p, seg_start(last));
    if k == segs.len() - 1 {
        assert(contents_of(segs)[i] == seg_rep(last)[i - seg_start(last)]);
    } else {
        lemma_seg_order(segs, total, k, segs.len() - 1);
        lemma_contents_index(p, seg_start(last), k, i);
        assert(contents_of(segs)[i] == contents_of(p)[i]);
    }
}

/// Every position below `total` is covered by some segment of a
/// well-formed tiling.
pub proof fn lemma_covering_exists(segs: Seq<Segment>, total: int, i: int)
    requires
        segs_wf(segs, total),
        0 <= i < total,
    ensures
        exists|k: int|
            0 <= k < segs.len() && #[trigger] seg_start(segs[k]) <= i < seg_start(segs[k])
                + seg_len(segs[k]),
    decreases segs.len(),
{
    let last = segs.last();
    if i >= seg_start(last) {
        assert(seg_start(segs[segs.len() - 1]) <= i < seg_start(segs[segs.len() - 1]) + seg_len(
            segs[segs.len() - 1],
        ));
    } else {
        lemma_segs_wf_prefix(segs, total);
        lemma_covering_exists(segs.drop_last(), seg_start(last), i);
        let k = choose|k: int|
            0 <= k < segs.drop_last().len() && #[trigger] seg_start(segs.drop_last()[k]) <= i
                < seg_start(segs.drop_last()[k]) + seg_len(segs.drop_last()[k]);
        assert(seg_start(segs[k]) <= i < seg_start(segs[k]) + seg_len(segs[k]));
    }
}

/// The reconstructed resource: a tiling of `[0, total)` into data and
/// filler segments, and a current read position (which may sit beyond the
/// end after a seek).
pub struct SparseBody {
    segments: Vec<Segment>,
    total: u64,
    position: u64,
}

/// Every selection entry has its surviving part.
pub proof fn lemma_sel_witness(us: Seq<UPart>, sel: Seq<(u64, u64, Vec<u8>)>, a: int)
    requires
        sel_wf(sel, us),
        0 <= a < sel.len(),
    ensures
        entry_matches(us, sel[a]),
{
    reveal(sel_wf);
}

/// Selection offsets strictly ascend.
pub proof fn lemma_sel_sorted(us: Seq<UPart>, sel: Seq<(u64, u64, Vec<u8>)>, a: int, b: int)
    requires
        sel_wf(sel, us),
        0 <= a < b < sel.len(),
    ensures
        sel[a].0 < sel[b].0,
{
    reveal(sel_wf);
}

/// Disjointness, spelled out for two surviving parts.
pub proof fn lemma_overlap_apart(us: Seq<UPart>, j: int, k: int)
    requires
        no_overlap(us),
        is_chosen(us, j),
        is_chosen(us, k),
        j != k,
    ensures
        us[j].off + us[j].len <= us[k].off || us[k].off + us[k].len <= us[j].off,
{
    reveal(no_overlap);
}

/// The empty selection is faithful to the empty part list.
pub proof fn lemma_sel_empty()
    ensures
        sel_wf(Seq::<(u64, u64, Vec<u8>)>::empty(), Seq::<UPart>::empty()),
{
    reveal(sel_wf);
}

impl SparseBody {
    /// The segments tile `[0, total)` exactly.
    pub closed spec fn wf(&self) -> bool {
        segs_wf(self.segments@, self.total as int)
    }

    /// The stream's whole contents: delivered bytes where a data segment
    /// lies, zeros elsewhere.
    pub closed spec fn contents(&self) -> Seq<u8> {
        contents_of(self.segments@)
    }

    /// The length of the reconstructed resource.
    pub closed spec fn spec_total(&self) -> u64 {
        self.total
    }

    /// The current read position.
    pub closed spec fn spec_pos(&self) -> u64 {
        self.position
    }

    /// A well-formed stream holds exactly `spec_total()` bytes.
    pub proof fn lemma_contents_total(&self)
        requires
            self.wf(),
        ensures
            self.contents().len() == self.spec_total(),
    {
        lemma_contents_len(self.segments@, self.total as int);
    }

    /// The byte at absolute position `i`.
    fn byte_at(&self, i: u64) -> (r: u8)
        requires
            self.wf(),
            i < self.spec_total(),
        ensures
            r == self.contents()[i as int],
    {
        proof {
            lemma_covering_exists(self.segments@, self.total as int, i as int);
        }
        let mut k: usize = 0;
        loop
            invariant
                self.wf(),
                i < self.spec_total(),
                k <= self.segments@.len(),
                forall|j: int|
                    0 <= j < k ==> !(#[trigger] seg_start(self.segments@[j]) <= i as int
                        && (i as int) < seg_start(self.segments@[j]) + seg_len(self.segments@[j])),
            decreases self.segments@.len() - k,
        {
            if k >= self.segments.len() {
                proof {
                    lemma_covering_exists(self.segments@, self.total as int, i as int);
                    let w = choose|w: int|
                        0 <= w < self.segments@.len() && #[trigger] seg_start(
                            self.segments@[w],
                        ) <= i as int && (i as int) < seg_start(self.segments@[w]) + seg_len(
                            self.segments@[w],
                        );
                    assert(false);
                }
            }
            let found: bool;
            let b: u8;
            match &self.segments[k] {
                Segment::Filler { start, len } => {
                    found = i >= *start && i - *start < *len;
                    b = 0;
                },
                Segment::Data { start, len, bytes } => {
                    if i >= *start && i - *start < *len {
                        found = true;
                        let rel = i - *start;
                        if rel < bytes.len() as u64 {
                            b = bytes[rel as usize];
                        } else {
                            b = 0;
                        }
                    } else {
                        found = false;
                        b = 0;
                    }
                },
            }
            if found {
                proof {
                    lemma_contents_index(self.segments@, self.total as int, k as int, i as int);
                }
                return b;
            }
            k += 1;
        }
    }

    /// Reads up to `n` bytes at the current position, advancing it.
    ///
    /// Yields exactly the stream's bytes from the current position,
    /// clamped to the end of the stream; a position at or beyond the end
    /// reads nothing.
    pub fn read(&mut self, n: usize) -> (r: Vec<u8>)
        requires
            old(self).wf(),
        ensures
            final(self).wf(),
            final(self).contents() == old(self).contents(),
            final(self).spec_total() == old(self).spec_total(),
            old(self).spec_pos() >= old(self).spec_total() ==> r@ == Seq::<u8>::empty()
                && final(self).spec_pos() == old(self).spec_pos(),
            old(self).spec_pos() < old(self).spec_total() ==> {
                let k = if n <= old(self).spec_total() - old(self).spec_pos() {
                    n as int
                } else {
                    old(self).spec_total() - old(self).spec_pos()
                };
                r@ == old(self).contents().subrange(
                    old(self).spec_pos() as int,
                    old(self).spec_pos() + k,
                ) && final(self).spec_pos() == old(self).spec_pos() + k
            },
    {
        proof {
            self.lemma_contents_total();
        }
        let mut out: Vec<u8> = Vec::new();
        if self.position >= self.total {
            return out;
        }
        let rem = self.total - self.position;
        let k: u64 = if (n as u64) <= rem {
            n as u64
        } else {
            rem
        };
        let start = self.position;
        let mut off: u64 = 0;
        while off < k
            invariant
                self.wf(),
                self == old(self),
                start == old(self).spec_pos(),
                off <= k,
                start + k <= self.spec_total(),
                out@ == self.contents().subrange(start as int, start + off),
            decreases k - off,
        {
            proof {
                self.lemma_contents_total();
            }
            let b = self.byte_at(start + off);
            out.push(b);
            off += 1;
            assert(out@ =~= self.contents().subrange(start as int, start + off));
        }
        self.position = start + k;
        out
    }

    /// The absolute position a seek aims at, or nothing when it lands
    /// before the start or beyond what a position can hold.
    pub open spec fn seek_target(pos: u64, total: u64, from: SeekFrom) -> Option<int> {
        let t: int = match from {
            SeekFrom::Start(p) => p as int,
            SeekFrom::End(d) => total + d,
            SeekFrom::Current(d) => pos + d,
        };
        if 0 <= t <= u64::MAX {
            Some(t)
        } else {
            None
        }
    }

    /// Recomputes the current position from the given origin. Fails,
    /// leaving the position unchanged, when the target would lie before
    /// the start of the stream (or beyond what a position can hold).
    pub fn seek(&mut self, from: SeekFrom) -> (r: Result<u64, SeekError>)
        requires
            old(self).wf(),
        ensures
            final(self).wf(),
            final(self).contents() == old(self).contents(),
            final(self).spec_total() == old(self).spec_total(),
            match Self::seek_target(old(self).spec_pos(), old(self).spec_total(), from) {
                Some(t) => r == Ok::<u64, SeekError>(t as u64) && final(self).spec_pos() == t,
                None => r == Err::<u64, SeekError>(SeekError) && final(self).spec_pos() == old(
                    self,
                ).spec_pos(),
            },
    {
        let base: u64;
        let delta: i64;
        match from {
            SeekFrom::Start(p) => {
                self.position = p;
                return Ok(p);
            },
            SeekFrom::End(d) => {
                base = self.total;
                delta = d;
            },
            SeekFrom::Current(d) => {
                base = self.position;
                delta = d;
            },
        }
        if delta >= 0 {
            let step = delta as u64;
            if base <= u64::MAX - step {
                self.position = base + step;
                Ok(self.position)
            } else {
                Err(SeekError)
            }
        } else {
            let mag = (-(delta + 1)) as u64 + 1;
            if mag <= base {
                self.position = base - mag;
                Ok(self.position)
            } else {
                Err(SeekError)
            }
        }
    }
}

/// One usable delivered part, as reconstruction sees it: its offset, its
/// declared width, its bytes, and the complete length its header
/// reported, if any.
pub struct UPart {
    /// The absolute offset the part claims.
    pub off: u64,
    /// The width the part claims (from its `Content-Range`, not from its
    /// byte count).
    pub len: u64,
    /// The part's delivered bytes.
    pub data: Seq<u8>,
    /// The complete resource length the part reported, if any.
    pub tot: Option<u64>,
}

/// The usable reading of one delivered part: nothing when its
/// `Content-Range` yields no representable `(offset, length)` span, or
/// when the span's end does not fit a position.
pub open spec fn usable_one(p: crate::response::PartValue) -> Option<UPart> {
    match crate::response::offset_len_of(p.range) {
        Some((o, l)) => if o + l <= u64::MAX {
            Some(
                UPart {
                    off: o,
                    len: l,
                    data: p.data,
                    tot: crate::response::total_size_of(p.range),
                },
            )
        } else {
            None
        },
        None => None,
    }
}

/// The usable parts of a delivered sequence, in order, the rest dropped
/// silently.
pub open spec fn usable(ps: Seq<crate::response::PartValue>) -> Seq<UPart>
    decreases ps.len(),
{
    if ps.len() == 0 {
        Seq::empty()
    } else {
        usable(ps.drop_last()) + match usable_one(ps.last()) {
            Some(u) => seq![u],
            None => Seq::empty(),
        }
    }
}

/// The abstract values of delivered parts.
pub open spec fn views(ps: Seq<crate::response::ResponsePart>) -> Seq<crate::response::PartValue> {
    ps.map_values(|p: crate::response::ResponsePart| p@)
}

/// What one part says the resource length is at least: its reported
/// complete length, or failing that the end of its own span.
pub open spec fn claimed_end(u: UPart) -> int {
    let c: int = match u.tot {
        Some(t) => t as int,
        None => 0,
    };
    if c > u.off + u.len {
        c
    } else {
        u.off + u.len
    }
}

/// The reconstructed resource length: the largest claim of any usable
/// part — its reported complete length or its own end, whichever is
/// greater — and zero when nothing usable was delivered.
pub open spec fn total_of(us: Seq<UPart>) -> int
    decreases us.len(),
{
    if us.len() == 0 {
        0
    } else {
        let t = total_of(us.drop_last());
        if claimed_end(us.last()) > t {
            claimed_end(us.last())
        } else {
            t
        }
    }
}

/// Whether the `k`-th usable part survives deduplication: of the parts
/// sharing its start offset it has the greatest width, and it is the
/// first to reach that width.
pub open spec fn is_chosen(us: Seq<UPart>, k: int) -> bool {
    &&& 0 <= k < us.len()
    &&& forall|j: int|
        0 <= j < us.len() && (#[trigger] us[j]).off == us[k].off ==> us[j].len <= us[k].len
    &&& forall|j: int| 0 <= j < k && (#[trigger] us[j]).off == us[k].off ==> us[j].len < us[k].len
}

/// Whether the `k`-th usable part survives deduplication and spans the
/// absolute position `i`.
pub open spec fn covers(us: Seq<UPart>, k: int, i: int) -> bool {
    is_chosen(us, k) && us[k].off <= i < us[k].off + us[k].len
}

/// Whether any surviving part spans position `i`.
#[verifier::opaque]
pub open spec fn covered(us: Seq<UPart>, i: int) -> bool {
    exists|k: int| covers(us, k, i)
}

/// The byte a part yields at absolute position `i` of the resource:
/// its own byte, or zero past the end of its delivered slice.
pub open spec fn part_byte(u: UPart, i: int) -> u8 {
    if i - u.off < u.data.len() {
        u.data[i - u.off]
    } else {
        0
    }
}

/// The byte reconstruction owes at position `i`: the covering surviving
/// part's byte, or zero where no part was delivered.
#[verifier::opaque]
pub open spec fn expected_byte(us: Seq<UPart>, i: int) -> u8 {
    if covered(us, i) {
        part_byte(us[choose|k: int| covers(us, k, i)], i)
    } else {
        0
    }
}

/// Whether the surviving parts are pairwise disjoint. The server is
/// assumed never to send genuinely overlapping ranges; reconstruction
/// from overlapping ones is implementation-defined.
#[verifier::opaque]
pub open spec fn no_overlap(us: Seq<UPart>) -> bool {
    forall|j: int, k: int|
        is_chosen(us, j) && is_chosen(us, k) && j != k ==> (#[trigger] us[j]).off + us[j].len <= (
        #[trigger] us[k]).off || us[k].off + us[k].len <= us[j].off
}

/// Two surviving parts with one start offset are one part.
pub proof fn lemma_chosen_same_off(us: Seq<UPart>, j: int, k: int)
    requires
        is_chosen(us, j),
        is_chosen(us, k),
        us[j].off == us[k].off,
    ensures
        j == k,
{
    if j < k {
        assert(us[j].len < us[k].len);
        assert(us[k].len <= us[j].len);
    } else if k < j {
        assert(us[k].len < us[j].len);
        assert(us[j].len <= us[k].len);
    }
}

/// Under disjointness, at most one surviving part spans a position.
pub proof fn lemma_unique_cover(us: Seq<UPart>, j: int, k: int, i: int)
    requires
        no_overlap(us),
        covers(us, j, i),
        covers(us, k, i),
    ensures
        j == k,
{
    reveal(no_overlap);
}

/// Every usable part has width at least one and an end that fits a
/// position.
pub proof fn lemma_usable_wf(ps: Seq<crate::response::PartValue>)
    ensures
        forall|k: int|
            0 <= k < usable(ps).len() ==> 1 <= (#[trigger] usable(ps)[k]).len && usable(
                ps,
            )[k].off + usable(ps)[k].len <= u64::MAX,
    decreases ps.len(),
{
    if ps.len() > 0 {
        lemma_usable_wf(ps.drop_last());
        let pre = usable(ps.drop_last());
        assert(forall|k: int|
            0 <= k < pre.len() ==> usable(ps)[k] == (#[trigger] pre[k]));
    }
}

/// The reconstructed length is at least every part's claim, and in
/// particular at least every part's end; it is zero exactly when nothing
/// was usable.
pub proof fn lemma_total_of_props(us: Seq<UPart>)
    ensures
        total_of(us) >= 0,
        forall|k: int| 0 <= k < us.len() ==> claimed_end(#[trigger] us[k]) <= total_of(us),
    decreases us.len(),
{
    if us.len() > 0 {
        lemma_total_of_props(us.drop_last());
        assert(total_of(us.drop_last()) <= total_of(us));
        assert(claimed_end(us[us.len() - 1]) <= total_of(us));
        assert forall|k: int| 0 <= k < us.len() - 1 implies claimed_end(#[trigger] us[k])
            <= total_of(us.drop_last()) by {
            assert(us[k] == us.drop_last()[k]);
            assert(claimed_end(us.drop_last()[k]) <= total_of(us.drop_last()));
        }
    }
}

/// The reconstructed length fits a position when every part's claim
/// does.
pub proof fn lemma_total_of_bound(us: Seq<UPart>)
    requires
        forall|k: int| 0 <= k < us.len() ==> (#[trigger] us[k]).off + us[k].len <= u64::MAX,
    ensures
        total_of(us) <= u64::MAX,
    decreases us.len(),
{
    if us.len() > 0 {
        lemma_total_of_bound(us.drop_last());
        assert(forall|k: int|
            0 <= k < us.len() - 1 ==> us[k] == (#[trigger] us.drop_last()[k]));
    }
}

/// A part that survived keeps surviving when a part with another offset,
/// or one no wider, arrives.
pub proof fn lemma_chosen_extend(us: Seq<UPart>, u: UPart, k: int)
    requires
        is_chosen(us, k),
        us[k].off != u.off || u.len <= us[k].len,
    ensures
        is_chosen(us.push(u), k),
{
    let us2 = us.push(u);
    assert(forall|j: int| 0 <= j < us.len() ==> us2[j] == (#[trigger] us[j]));
    assert(us2[us.len() as int] == u);
    assert(us2[k] == us[k]);
}

/// A part strictly wider than everything sharing its offset survives,
/// as the last arrival.
pub proof fn lemma_new_chosen(us: Seq<UPart>, u: UPart)
    requires
        forall|j: int| 0 <= j < us.len() && (#[trigger] us[j]).off == u.off ==> us[j].len < u.len,
    ensures
        is_chosen(us.push(u), us.len() as int),
{
    let us2 = us.push(u);
    assert(forall|j: int| 0 <= j < us.len() ==> us2[j] == (#[trigger] us[j]));
    assert(us2[us.len() as int] == u);
}

/// The invariant tying the deduplicated, sorted selection to the usable
/// parts: offsets strictly ascend, every entry is a surviving part
/// verbatim, and every usable offset is represented.
/// Whether some surviving part is this selection entry, verbatim.
pub open spec fn entry_matches(us: Seq<UPart>, e: (u64, u64, Vec<u8>)) -> bool {
    exists|k: int|
        #[trigger] is_chosen(us, k) && us[k].off == e.0 && us[k].len == e.1 && us[k].data == e.2@
}

/// Whether some selection entry sits at offset `o`.
pub open spec fn off_in_sel(sel: Seq<(u64, u64, Vec<u8>)>, o: u64) -> bool {
    exists|a: int| 0 <= a < sel.len() && (#[trigger] sel[a]).0 == o
}

#[verifier::opaque]
pub open spec fn sel_wf(sel: Seq<(u64, u64, Vec<u8>)>, us: Seq<UPart>) -> bool {
    &&& forall|a: int, b: int|
        0 <= a < b < sel.len() ==> (#[trigger] sel[a]).0 < (#[trigger] sel[b]).0
    &&& forall|a: int| 0 <= a < sel.len() ==> entry_matches(us, #[trigger] sel[a])
    &&& forall|j: int| 0 <= j < us.len() ==> off_in_sel(sel, (#[trigger] us[j]).off)
}

/// Any position spanned by a surviving part is spanned by a selection
/// entry, and the other way round.
pub proof fn lemma_cover_in_sel(us: Seq<UPart>, sel: Seq<(u64, u64, Vec<u8>)>, i: int)
    requires
        sel_wf(sel, us),
        covered(us, i),
    ensures
        exists|a: int|
            0 <= a < sel.len() && (#[trigger] sel[a]).0 <= i < sel[a].0 + sel[a].1,
{
    reveal(sel_wf);
    reveal(covered);
    let k = choose|k: int| covers(us, k, i);
    assert(off_in_sel(sel, us[k].off));
    let a = choose|a: int| 0 <= a < sel.len() && (#[trigger] sel[a]).0 == us[k].off;
    assert(entry_matches(us, sel[a]));
    let k2 = choose|k2: int|
        #[trigger] is_chosen(us, k2) && us[k2].off == sel[a].0 && us[k2].len == sel[a].1
            && us[k2].data == sel[a].2@;
    lemma_chosen_same_off(us, k, k2);
    assert(sel[a].0 <= i < sel[a].0 + sel[a].1);
}


/// Two selection entries never share an offset.
pub proof fn lemma_sel_distinct(sel: Seq<(u64, u64, Vec<u8>)>, a: int, b: int)
    requires
        forall|x: int, y: int|
            0 <= x < y < sel.len() ==> (#[trigger] sel[x]).0 < (#[trigger] sel[y]).0,
        0 <= a < sel.len(),
        0 <= b < sel.len(),
        a != b,
    ensures
        sel[a].0 != sel[b].0,
{
    if a < b {
        assert(sel[a].0 < sel[b].0);
    } else {
        assert(sel[b].0 < sel[a].0);
    }
}

/// Replacing the entry at a part's own offset by a strictly wider
/// arrival keeps the selection faithful.
#[verifier::rlimit(100)]
pub proof fn lemma_sel_replace(
    us_old: Seq<UPart>,
    u: UPart,
    sel_old: Seq<(u64, u64, Vec<u8>)>,
    sel_new: Seq<(u64, u64, Vec<u8>)>,
    pos: int,
    e: (u64, u64, Vec<u8>),
)
    requires
        sel_wf(sel_old, us_old),
        0 <= pos < sel_old.len(),
        sel_old[pos].0 == u.off,
        sel_old[pos].1 < u.len,
        e.0 == u.off,
        e.1 == u.len,
        e.2@ == u.data,
        sel_new == sel_old.update(pos, e),
    ensures
        sel_wf(sel_new, us_old.push(u)),
{
    reveal(sel_wf);
    let us2 = us_old.push(u);
    let n = us_old.len() as int;
    assert(forall|j: int| 0 <= j < n ==> us2[j] == (#[trigger] us_old[j]));
    assert(us2[n] == u);
    assert(forall|a: int| 0 <= a < sel_new.len() && a != pos ==> sel_new[a] == (
    #[trigger] sel_old[a]));
    assert(forall|a: int, b: int|
        0 <= a < b < sel_new.len() ==> (#[trigger] sel_new[a]).0 < (#[trigger] sel_new[b]).0);
    assert(entry_matches(us_old, sel_old[pos]));
    let kp = choose|k: int|
        #[trigger] is_chosen(us_old, k) && us_old[k].off == sel_old[pos].0 && us_old[k].len
            == sel_old[pos].1 && us_old[k].data == sel_old[pos].2@;
    assert forall|j: int| 0 <= j < n && (#[trigger] us_old[j]).off == u.off implies us_old[j].len
        < u.len by {
        assert(us_old[j].len <= us_old[kp].len);
    }
    lemma_new_chosen(us_old, u);
    assert forall|a: int| 0 <= a < sel_new.len() implies entry_matches(us2, #[trigger] sel_new[
        a
    ]) by {
        if a == pos {
            assert(is_chosen(us2, n) && us2[n].off == sel_new[a].0 && us2[n].len == sel_new[a].1
                && us2[n].data == sel_new[a].2@);
        } else {
            assert(entry_matches(us_old, sel_old[a]));
            let k0 = choose|k0: int|
                #[trigger] is_chosen(us_old, k0) && us_old[k0].off == sel_old[a].0 && us_old[
                    k0
                ].len == sel_old[a].1 && us_old[k0].data == sel_old[a].2@;
            lemma_sel_distinct(sel_old, a, pos);
            lemma_chosen_extend(us_old, u, k0);
            assert(is_chosen(us2, k0) && us2[k0].off == sel_new[a].0 && us2[k0].len == sel_new[
                a
            ].1 && us2[k0].data == sel_new[a].2@);
        }
    }
    assert forall|j: int| 0 <= j < us2.len() implies off_in_sel(sel_new, (#[trigger] us2[
        j
    ]).off) by {
        if j < n {
            assert(off_in_sel(sel_old, us_old[j].off));
            let a0 = choose|a0: int|
                0 <= a0 < sel_old.len() && (#[trigger] sel_old[a0]).0 == us_old[j].off;
            assert(sel_new[a0].0 == us2[j].off);
        } else {
            assert(sel_new[pos].0 == us2[j].off);
        }
    }
}

/// A no-wider arrival at an already selected offset changes nothing.
#[verifier::rlimit(100)]
pub proof fn lemma_sel_skip(
    us_old: Seq<UPart>,
    u: UPart,
    sel: Seq<(u64, u64, Vec<u8>)>,
    pos: int,
)
    requires
        sel_wf(sel, us_old),
        0 <= pos < sel.len(),
        sel[pos].0 == u.off,
        u.len <= sel[pos].1,
    ensures
        sel_wf(sel, us_old.push(u)),
{
    reveal(sel_wf);
    let us2 = us_old.push(u);
    let n = us_old.len() as int;
    assert(forall|j: int| 0 <= j < n ==> us2[j] == (#[trigger] us_old[j]));
    assert(us2[n] == u);
    assert forall|a: int| 0 <= a < sel.len() implies entry_matches(us2, #[trigger] sel[a]) by {
        assert(entry_matches(us_old, sel[a]));
        let k0 = choose|k0: int|
            #[trigger] is_chosen(us_old, k0) && us_old[k0].off == sel[a].0 && us_old[k0].len
                == sel[a].1 && us_old[k0].data == sel[a].2@;
        if a == pos {
            lemma_chosen_extend(us_old, u, k0);
        } else {
            lemma_sel_distinct(sel, a, pos);
            lemma_chosen_extend(us_old, u, k0);
        }
        assert(is_chosen(us2, k0) && us2[k0].off == sel[a].0 && us2[k0].len == sel[a].1 && us2[
            k0
        ].data == sel[a].2@);
    }
    assert forall|j: int| 0 <= j < us2.len() implies off_in_sel(sel, (#[trigger] us2[j]).off) by {
        if j < n {
            assert(off_in_sel(sel, us_old[j].off));
            let a0 = choose|a0: int|
                0 <= a0 < sel.len() && (#[trigger] sel[a0]).0 == us_old[j].off;
            assert(sel[a0].0 == us2[j].off);
        } else {
            assert(sel[pos].0 == us2[j].off);
        }
    }
}

/// An arrival at a fresh offset joins the selection at its sorted place.
#[verifier::rlimit(100)]
pub proof fn lemma_sel_insert(
    us_old: Seq<UPart>,
    u: UPart,
    sel_old: Seq<(u64, u64, Vec<u8>)>,
    sel_new: Seq<(u64, u64, Vec<u8>)>,
    pos: int,
    e: (u64, u64, Vec<u8>),
)
    requires
        sel_wf(sel_old, us_old),
        0 <= pos <= sel_old.len(),
        forall|a: int| 0 <= a < pos ==> (#[trigger] sel_old[a]).0 < u.off,
        forall|a: int| pos <= a < sel_old.len() ==> (#[trigger] sel_old[a]).0 > u.off,
        e.0 == u.off,
        e.1 == u.len,
        e.2@ == u.data,
        sel_new == sel_old.insert(pos, e),
    ensures
        sel_wf(sel_new, us_old.push(u)),
{
    reveal(sel_wf);
    let us2 = us_old.push(u);
    let n = us_old.len() as int;
    assert(forall|j: int| 0 <= j < n ==> us2[j] == (#[trigger] us_old[j]));
    assert(us2[n] == u);
    assert(forall|a: int| 0 <= a < pos ==> sel_new[a] == (#[trigger] sel_old[a]));
    assert(forall|a: int|
        pos < a < sel_new.len() ==> sel_new[a] == (#[trigger] sel_old[a - 1]));
    assert(sel_new[pos] == e);
    assert forall|a: int, b: int| 0 <= a < b < sel_new.len() implies (#[trigger] sel_new[a]).0 < (
    #[trigger] sel_new[b]).0 by {
        if a < pos && b == pos {
        } else if a == pos && b > pos {
        } else if a < pos && b > pos {
            assert(sel_old[a].0 < u.off);
            assert(sel_old[b - 1].0 > u.off);
        }
    }
    assert forall|j: int| 0 <= j < n implies (#[trigger] us_old[j]).off != u.off by {
        assert(off_in_sel(sel_old, us_old[j].off));
        let a0 = choose|a0: int|
            0 <= a0 < sel_old.len() && (#[trigger] sel_old[a0]).0 == us_old[j].off;
        if a0 < pos {
            assert(sel_old[a0].0 < u.off);
        } else {
            assert(sel_old[a0].0 > u.off);
        }
    }
    lemma_new_chosen(us_old, u);
    assert forall|a: int| 0 <= a < sel_new.len() implies entry_matches(us2, #[trigger] sel_new[
        a
    ]) by {
        if a == pos {
            assert(is_chosen(us2, n) && us2[n].off == sel_new[a].0 && us2[n].len == sel_new[a].1
                && us2[n].data == sel_new[a].2@);
        } else {
            let a0: int = if a < pos {
                a
            } else {
                a - 1
            };
            assert(entry_matches(us_old, sel_old[a0]));
            let k0 = choose|k0: int|
                #[trigger] is_chosen(us_old, k0) && us_old[k0].off == sel_old[a0].0 && us_old[
                    k0
                ].len == sel_old[a0].1 && us_old[k0].data == sel_old[a0].2@;
            lemma_chosen_extend(us_old, u, k0);
            assert(is_chosen(us2, k0) && us2[k0].off == sel_new[a].0 && us2[k0].len == sel_new[
                a
            ].1 && us2[k0].data == sel_new[a].2@);
        }
    }
    assert forall|j: int| 0 <= j < us2.len() implies off_in_sel(sel_new, (#[trigger] us2[
        j
    ]).off) by {
        if j < n {
            assert(off_in_sel(sel_old, us_old[j].off));
            let a0 = choose|a0: int|
                0 <= a0 < sel_old.len() && (#[trigger] sel_old[a0]).0 == us_old[j].off;
            let a: int = if a0 < pos {
                a0
            } else {
                a0 + 1
            };
            assert(0 <= a < sel_new.len() && sel_new[a].0 == us2[j].off);
        } else {
            assert(sel_new[pos].0 == us2[j].off);
        }
    }
}

/// Appending a zero-width-or-more segment right at the end of a
/// well-formed tiling keeps it well-formed.
pub proof fn lemma_segs_wf_push(segs: Seq<Segment>, total0: int, s: Segment)
    requires
        segs_wf(segs, total0),
        seg_start(s) == total0,
        seg_len(s) >= 0,
    ensures
        segs_wf(segs.push(s), total0 + seg_len(s)),
{
    let segs2 = segs.push(s);
    assert(forall|j: int| 0 <= j < segs.len() ==> segs2[j] == (#[trigger] segs[j]));
    assert(segs2[segs.len() as int] == s);
}

/// Once a part is laid down — everything before it already faithful, the
/// gap before it zeroed, its own span its bytes — the tiling is faithful
/// through the part's end.
pub proof fn lemma_extend_pointwise(
    us: Seq<UPart>,
    sel: Seq<(u64, u64, Vec<u8>)>,
    m: int,
    c_new: Seq<u8>,
    c_old: Seq<u8>,
    idx0: int,
    kw: int,
)
    requires
        no_overlap(us),
        sel_wf(sel, us),
        0 <= m < sel.len(),
        is_chosen(us, kw),
        us[kw].off == sel[m].0,
        us[kw].len == sel[m].1,
        us[kw].data == sel[m].2@,
        forall|a: int| 0 <= a < m ==> (#[trigger] sel[a]).0 + sel[a].1 <= idx0,
        0 <= idx0 <= sel[m].0,
        c_old.len() == idx0,
        forall|i: int| 0 <= i < idx0 ==> c_old[i] == expected_byte(us, i),
        c_new.len() == sel[m].0 + sel[m].1,
        forall|i: int| 0 <= i < idx0 ==> c_new[i] == c_old[i],
        forall|i: int| idx0 <= i < sel[m].0 ==> c_new[i] == 0,
        forall|i: int|
            sel[m].0 <= i < sel[m].0 + sel[m].1 ==> c_new[i] == part_byte(us[kw], i),
    ensures
        forall|i: int| 0 <= i < sel[m].0 + sel[m].1 ==> c_new[i] == expected_byte(us, i),
{
    reveal(covered);
    reveal(expected_byte);
    assert forall|i: int| 0 <= i < sel[m].0 + sel[m].1 implies c_new[i] == expected_byte(
        us,
        i,
    ) by {
        if i < idx0 {
        } else if i < sel[m].0 {
            if covered(us, i) {
                lemma_cover_in_sel(us, sel, i);
                let a = choose|a: int|
                    0 <= a < sel.len() && (#[trigger] sel[a]).0 <= i < sel[a].0 + sel[a].1;
                if a < m {
                    assert(sel[a].0 + sel[a].1 <= idx0);
                } else {
                    if a > m {
                        lemma_sel_sorted(us, sel, m, a);
                    }
                    assert(sel[m].0 <= sel[a].0);
                }
                assert(false);
            }
        } else {
            assert(covers(us, kw, i));
            let k2 = choose|k2: int| covers(us, k2, i);
            lemma_unique_cover(us, kw, k2, i);
        }
    }
}

/// With every selected part laid down, zero-filling the tail keeps the
/// tiling faithful through `total`.
pub proof fn lemma_tail_pointwise(
    us: Seq<UPart>,
    sel: Seq<(u64, u64, Vec<u8>)>,
    c_new: Seq<u8>,
    c_old: Seq<u8>,
    idx0: int,
    total: int,
)
    requires
        no_overlap(us),
        sel_wf(sel, us),
        forall|a: int| 0 <= a < sel.len() ==> (#[trigger] sel[a]).0 + sel[a].1 <= idx0,
        0 <= idx0 <= total,
        c_old.len() == idx0,
        forall|i: int| 0 <= i < idx0 ==> c_old[i] == expected_byte(us, i),
        c_new.len() == total,
        forall|i: int| 0 <= i < idx0 ==> c_new[i] == c_old[i],
        forall|i: int| idx0 <= i < total ==> c_new[i] == 0,
    ensures
        forall|i: int| 0 <= i < total ==> c_new[i] == expected_byte(us, i),
{
    reveal(covered);
    reveal(expected_byte);
    assert forall|i: int| 0 <= i < total implies c_new[i] == expected_byte(us, i) by {
        if i >= idx0 {
            if covered(us, i) {
                lemma_cover_in_sel(us, sel, i);
                let a = choose|a: int|
                    0 <= a < sel.len() && (#[trigger] sel[a]).0 <= i < sel[a].0 + sel[a].1;
                assert(sel[a].0 + sel[a].1 <= idx0);
                assert(false);
            }
        }
    }
}

impl SparseBody {
    /// The whole resource, delivered in one piece (a complete response):
    /// one data segment covering all of it.
    pub fn full(bytes: Vec<u8>) -> (r: SparseBody)
        ensures
            r.wf(),
            r.contents() == bytes@,
            r.spec_total() == bytes@.len(),
            r.spec_pos() == 0,
    {
        let total = bytes.len() as u64;
        let mut segments: Vec<Segment> = Vec::new();
        if bytes.len() > 0 {
            let ghost b = bytes@;
            segments.push(Segment::Data { start: 0, len: total, bytes });
            proof {
                let segs = segments@;
                assert(segs.drop_last() =~= Seq::<Segment>::empty());
                assert(contents_of(segs.drop_last()) == Seq::<u8>::empty());
                assert(contents_of(segs) =~= seg_rep(segs[0]));
                assert(seg_rep(segs[0]) =~= b);
            }
        } else {
            proof {
                assert(contents_of(segments@) =~= bytes@);
            }
        }
        SparseBody { segments, total, position: 0 }
    }

    /// Reconstructs the resource from delivered parts, as
    /// [`make_sparse_body`] describes.
    pub fn partial(parts: Vec<ResponsePart>) -> (r: SparseBody)
        ensures
            r.wf(),
            r.spec_pos() == 0,
            r.spec_total() as int == total_of(usable(views(parts@))),
            no_overlap(usable(views(parts@))) ==> forall|i: int|
                0 <= i < r.spec_total() ==> r.contents()[i] == expected_byte(
                    usable(views(parts@)),
                    i,
                ),
    {
        make_sparse_body(parts)
    }
}

/// Builds the sparse resource from the delivered parts.
///
/// Parts without a usable `(offset, length)` are dropped silently. The
/// resource length is the largest of every part's reported complete
/// length and every part's own end. Of parts sharing a start offset only
/// the widest (the first such, on ties) survives. The surviving parts are
/// laid out in offset order, every gap filled with zeros; when the
/// surviving parts do not overlap, the byte at each position is exactly
/// the covering part's byte, and zero where no part was delivered.
/// Overlapping parts beyond the literal same-start case produce an
/// implementation-defined layout (later parts reaching into already
/// covered space are dropped), as the server is assumed never to send
/// them.
#[verifier::rlimit(100)]
fn make_sparse_body(parts: Vec<ResponsePart>) -> (r: SparseBody)
    ensures
        r.wf(),
        r.spec_pos() == 0,
        r.spec_total() as int == total_of(usable(views(parts@))),
        no_overlap(usable(views(parts@))) ==> forall|i: int|
            0 <= i < r.spec_total() ==> r.contents()[i] == expected_byte(usable(views(parts@)), i),
{
    let ghost pv = views(parts@);
    let mut sel: Vec<(u64, u64, Vec<u8>)> = Vec::new();
    let mut total: u64 = 0;
    let mut i: usize = 0;
    proof {
        assert(pv.take(0) =~= Seq::<crate::response::PartValue>::empty());
        lemma_sel_empty();
        assert(sel@ =~= Seq::<(u64, u64, Vec<u8>)>::empty());
        assert(usable(pv.take(0)) =~= Seq::<UPart>::empty());
    }
    while i < parts.len()
        invariant
            i <= parts@.len(),
            pv == views(parts@),
            pv.len() == parts@.len(),
            total as int == total_of(usable(pv.take(i as int))),
            sel_wf(sel@, usable(pv.take(i as int))),
        decreases parts@.len() - i,
    {
        let ghost us_old = usable(pv.take(i as int));
        proof {
            assert(pv.take(i + 1).drop_last() =~= pv.take(i as int));
            assert(pv.take(i + 1).last() == pv[i as int]);
            assert(pv[i as int] == parts@[i as int]@);
        }
        let p = &parts[i];
        match p.offset_len() {
            None => {
                proof {
                    assert(usable(pv.take(i + 1)) =~= us_old);
                }
            },
            Some((off, len)) => {
                if off > u64::MAX - len {
                    proof {
                        assert(usable(pv.take(i + 1)) =~= us_old);
                    }
                } else {
                    let ghost u = UPart {
                        off,
                        len,
                        data: p@.data,
                        tot: crate::response::total_size_of(p@.range),
                    };
                    let ghost us_new = us_old.push(u);
                    proof {
                        assert(usable_one(pv[i as int]) == Some(u));
                        assert(usable(pv.take(i + 1)) =~= us_new);
                        assert(us_new.drop_last() =~= us_old);
                    }
                    let c: u64 = match p.total_size() {
                        Some(t) => if t > off + len {
                            t
                        } else {
                            off + len
                        },
                        None => off + len,
                    };
                    proof {
                        assert(c as int == claimed_end(u));
                    }
                    if c > total {
                        total = c;
                    }
                    proof {
                        assert(total as int == total_of(us_new));
                    }
                    let data = clone_bytes(p.data());
                    let mut pos: usize = 0;
                    while pos < sel.len() && sel[pos].0 < off
                        invariant
                            pos <= sel@.len(),
                            forall|a: int| 0 <= a < pos ==> (#[trigger] sel@[a]).0 < off,
                        decreases sel@.len() - pos,
                    {
                        pos += 1;
                    }
                    if pos < sel.len() && sel[pos].0 == off {
                        let cur_len = sel[pos].1;
                        let ghost sel_old = sel@;
                        if len > cur_len {
                            sel[pos] = (off, len, data);
                            proof {
                                lemma_sel_replace(
                                    us_old,
                                    u,
                                    sel_old,
                                    sel@,
                                    pos as int,
                                    (off, len, sel@[pos as int].2),
                                );
                            }
                        } else {
                            proof {
                                lemma_sel_skip(us_old, u, sel@, pos as int);
                            }
                        }
                    } else {
                        let ghost sel_old = sel@;
                        proof {
                            assert forall|a: int|
                                (pos as int) <= a && a < sel_old.len() implies (
                            #[trigger] sel_old[a]).0 > off by {
                                if a > pos as int {
                                    lemma_sel_sorted(us_old, sel_old, pos as int, a);
                                }
                            }
                        }
                        sel.insert(pos, (off, len, data));
                        proof {
                            lemma_sel_insert(
                                us_old,
                                u,
                                sel_old,
                                sel@,
                                pos as int,
                                (off, len, sel@[pos as int].2),
                            );
                        }
                    }
                }
            },
        }
        i += 1;
    }
    proof {
        assert(pv.take(pv.len() as int) =~= pv);
    }
    let segments = build_segments(sel, total, Ghost(pv));
    SparseBody { segments, total, position: 0 }
}

/// Lays the selected parts out in offset order, zero-filling every gap
/// and the tail up to `total`.
#[verifier::rlimit(100)]
fn build_segments(
    sel: Vec<(u64, u64, Vec<u8>)>,
    total: u64,
    Ghost(pv): Ghost<Seq<crate::response::PartValue>>,
) -> (segments: Vec<Segment>)
    requires
        sel_wf(sel@, usable(pv)),
        total as int == total_of(usable(pv)),
    ensures
        segs_wf(segments@, total as int),
        no_overlap(usable(pv)) ==> forall|i: int|
            0 <= i < total ==> contents_of(segments@)[i] == expected_byte(usable(pv), i),
{
    let ghost us = usable(pv);
    let ghost no = no_overlap(us);
    proof {
        lemma_usable_wf(pv);
        lemma_total_of_props(us);
    }
    let mut segments: Vec<Segment> = Vec::new();
    let mut idx: u64 = 0;
    let mut m: usize = 0;
    while m < sel.len()
        invariant
            m <= sel@.len(),
            us == usable(pv),
            sel_wf(sel@, us),
            total as int == total_of(us),
            segs_wf(segments@, idx as int),
            contents_of(segments@).len() == idx,
            idx <= total,
            no == no_overlap(us),
            no ==> forall|a: int| 0 <= a < m ==> (#[trigger] sel@[a]).0 + sel@[a].1 <= idx,
            no ==> (m == 0 ==> idx == 0),
            no ==> (m > 0 ==> idx as int == sel@[m - 1].0 + sel@[m - 1].1),
            no ==> forall|i2: int|
                0 <= i2 < idx ==> contents_of(segments@)[i2] == expected_byte(us, i2),
        decreases sel@.len() - m,
    {
        proof {
            lemma_usable_wf(pv);
            lemma_total_of_props(us);
        }
        let (off, len) = (sel[m].0, sel[m].1);
        proof {
            lemma_sel_witness(us, sel@, m as int);
        }
        let ghost kw = choose|k: int|
            #[trigger] is_chosen(us, k) && us[k].off == sel@[m as int].0 && us[k].len == sel@[
                m as int
            ].1 && us[k].data == sel@[m as int].2@;
        proof {
            assert(claimed_end(us[kw]) <= total_of(us));
            assert(off + len <= total);
        }
        if off >= idx {
            let ghost segs0 = segments@;
            let ghost idx0 = idx as int;
            if off > idx {
                let fillseg = Segment::Filler { start: idx, len: off - idx };
                proof {
                    lemma_contents_push(segs0, fillseg);
                    lemma_segs_wf_push(segs0, idx0, fillseg);
                }
                segments.push(fillseg);
            }
            let ghost segs1 = segments@;
            let data2 = clone_bytes(&sel[m].2);
            let seg = Segment::Data { start: off, len, bytes: data2 };
            proof {
                lemma_contents_push(segs1, seg);
                lemma_segs_wf_push(segs1, off as int, seg);
            }
            segments.push(seg);
            idx = off + len;
            proof {
                let c_new = contents_of(segments@);
                let c_old = contents_of(segs0);
                assert(c_new.len() == idx);
                assert(forall|i2: int| 0 <= i2 < idx0 ==> c_new[i2] == c_old[i2]);
                assert(forall|i2: int| idx0 <= i2 < off ==> c_new[i2] == 0);
                assert forall|i2: int| off <= i2 < off + len implies c_new[i2] == part_byte(
                    us[kw],
                    i2,
                ) by {
                    assert(c_new[i2] == seg_byte(seg, i2 - off));
                }
                if no {
                    lemma_extend_pointwise(us, sel@, m as int, c_new, c_old, idx0, kw);
                }
            }
        } else {
            proof {
                if no {
                    if m > 0 {
                        lemma_sel_witness(us, sel@, m - 1);
                        let kp = choose|k: int|
                            #[trigger] is_chosen(us, k) && us[k].off == sel@[m - 1].0 && us[
                                k
                            ].len == sel@[m - 1].1 && us[k].data == sel@[m - 1].2@;
                        lemma_sel_sorted(us, sel@, m - 1, m as int);
                        assert(kp != kw) by {
                            if kp == kw {
                                assert(us[kp].off == us[kw].off);
                            }
                        }
                        lemma_overlap_apart(us, kp, kw);
                        assert(false);
                    }
                }
            }
        }
        m += 1;
    }
    if idx < total {
        let ghost segs0 = segments@;
        let ghost idx0 = idx as int;
        let fillseg = Segment::Filler { start: idx, len: total - idx };
        proof {
            lemma_contents_push(segs0, fillseg);
            lemma_segs_wf_push(segs0, idx0, fillseg);
        }
        segments.push(fillseg);
        proof {
            if no {
                lemma_tail_pointwise(
                    us,
                    sel@,
                    contents_of(segments@),
                    contents_of(segs0),
                    idx0,
                    total as int,
                );
            }
        }
        idx = total;
    }
    segments
}

} // verus!