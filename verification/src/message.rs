//! Segment-based message buffer.
//!
//! A message is an ordered sequence of word-aligned segments, each a
//! contiguous byte buffer.  A builder message grows by appending: an
//! allocation either extends the newest segment in place or, when the
//! segment's capacity is exhausted, starts a fresh segment with doubled
//! capacity.  Offsets handed out earlier are never invalidated (pointer
//! stability).  A message parsed from bytes has the same shape and is
//! simply never extended.
//!
//! The view of a message is the mathematical sequence of its segments'
//! bytes, `Seq<Seq<u8>>`; every contract of the codec is stated over that
//! view.

use vstd::prelude::*;
use vstd::arithmetic::div_mod::{lemma_div_denominator, lemma_fundamental_div_mod};
use vstd::slice::{slice_subrange, slice_to_vec};
use vstd::pervasive::VecAdditionalExecFns;

verus! {

/// Bytes per word: every segment length and every object offset is a
/// multiple of this.
pub const WORD_BYTES: usize = 8;

/// Largest segment size in words, chosen so that any in-segment word
/// offset fits the 30-bit offset field of a pointer cell.
pub const MAX_SEGMENT_WORDS: usize = 0x0FFF_FFFF;

/// Largest number of segments a message may hold.
pub const MAX_SEGMENTS: usize = 512;

/// Capacity in words of the first segment of a fresh builder message.
pub const FIRST_SEGMENT_WORDS: usize = 128;

/// Well-formedness of a message view: at least one segment, a bounded
/// segment count, and every segment word-aligned and bounded.
pub open spec fn view_wf(mv: Seq<Seq<u8>>) -> bool {
    &&& 1 <= mv.len() <= MAX_SEGMENTS
    &&& forall|i: int|
        0 <= i < mv.len() ==> (#[trigger] mv[i].len()) % (WORD_BYTES as nat) == 0
            && mv[i].len() <= MAX_SEGMENT_WORDS * WORD_BYTES
}

/// The value of a 2-byte little-endian sequence.
#[verifier::opaque]
pub open spec fn spec_le16(s: Seq<u8>) -> u16 {
    ((s[0] as int) + 0x100 * (s[1] as int)) as u16
}

/// The value of a 4-byte little-endian sequence.
#[verifier::opaque]
pub open spec fn spec_le32(s: Seq<u8>) -> u32 {
    ((s[0] as int) + 0x100 * (s[1] as int) + 0x1_0000 * (s[2] as int) + 0x100_0000 * (
    s[3] as int)) as u32
}

/// The value of an 8-byte little-endian sequence.
#[verifier::opaque]
pub open spec fn spec_le64(s: Seq<u8>) -> u64 {
    ((s[0] as int) + 0x100 * (s[1] as int) + 0x1_0000 * (s[2] as int) + 0x100_0000 * (
    s[3] as int) + 0x1_0000_0000 * (s[4] as int) + 0x100_0000_0000 * (s[5] as int)
        + 0x1_0000_0000_0000 * (s[6] as int) + 0x100_0000_0000_0000 * (s[7] as int)) as u64
}

/// The little-endian bytes of a 16-bit value.
#[verifier::opaque]
pub open spec fn spec_u16_bytes(v: u16) -> Seq<u8> {
    seq![((v as int) % 0x100) as u8, ((v as int) / 0x100) as u8]
}

/// The little-endian bytes of a 32-bit value.
#[verifier::opaque]
pub open spec fn spec_u32_bytes(v: u32) -> Seq<u8> {
    seq![
        ((v as int) % 0x100) as u8,
        (((v as int) / 0x100) % 0x100) as u8,
        (((v as int) / 0x1_0000) % 0x100) as u8,
        ((v as int) / 0x100_0000) as u8,
    ]
}

/// The little-endian bytes of a 64-bit value.
#[verifier::opaque]
pub open spec fn spec_u64_bytes(v: u64) -> Seq<u8> {
    seq![
        ((v as int) % 0x100) as u8,
        (((v as int) / 0x100) % 0x100) as u8,
        (((v as int) / 0x1_0000) % 0x100) as u8,
        (((v as int) / 0x100_0000) % 0x100) as u8,
        (((v as int) / 0x1_0000_0000) % 0x100) as u8,
        (((v as int) / 0x100_0000_0000) % 0x100) as u8,
        (((v as int) / 0x1_0000_0000_0000) % 0x100) as u8,
        ((v as int) / 0x100_0000_0000_0000) as u8,
    ]
}

/// Splitting off the low byte of a value: quotient and remainder facts.
proof fn lemma_byte_split(x: int, d: int)
    requires
        0 <= x,
        1 <= d,
    ensures
        x == d * 0x100 * ((x / d) / 0x100) + d * ((x / d) % 0x100) + x % d,
        (x / d) / 0x100 == x / (d * 0x100),
        0 <= x % d < d,
        0 <= (x / d) % 0x100 < 0x100,
{
    lemma_fundamental_div_mod(x, d);
    lemma_fundamental_div_mod(x / d, 0x100);
    lemma_div_denominator(x, d, 0x100);
    assert(x == d * ((x / d)) + x % d);
    assert(x / d == 0x100 * ((x / d) / 0x100) + (x / d) % 0x100);
    assert(d * (0x100 * ((x / d) / 0x100) + (x / d) % 0x100) == d * 0x100 * ((x / d) / 0x100) + d
        * ((x / d) % 0x100)) by (nonlinear_arith);
}

/// Reading back the bytes of a 16-bit value gives the value.
pub proof fn lemma_u16_bytes_roundtrip(v: u16)
    ensures
        spec_u16_bytes(v).len() == 2,
        spec_le16(spec_u16_bytes(v)) == v,
{
    reveal(spec_u16_bytes);
    reveal(spec_le16);
    lemma_fundamental_div_mod(v as int, 0x100);
}

/// A 32-bit value equals the weighted sum of its little-endian bytes.
pub proof fn lemma_u32_le_identity(v: u32)
    ensures
        (v as int) == (v as int) % 0x100 + 0x100 * ((v as int) / 0x100 % 0x100) + 0x1_0000 * ((
        v as int) / 0x1_0000 % 0x100) + 0x100_0000 * ((v as int) / 0x100_0000),
{
    let x = v as int;
    lemma_byte_split(x, 1);
    lemma_byte_split(x, 0x100);
    lemma_byte_split(x, 0x1_0000);
    lemma_byte_split(x, 0x100_0000);
}

/// Reading back the bytes of a 32-bit value gives the value.
pub proof fn lemma_u32_bytes_roundtrip(v: u32)
    ensures
        spec_u32_bytes(v).len() == 4,
        spec_le32(spec_u32_bytes(v)) == v,
{
    reveal(spec_u32_bytes);
    reveal(spec_le32);
    let x = v as int;
    lemma_byte_split(x, 1);
    lemma_byte_split(x, 0x100);
    lemma_byte_split(x, 0x1_0000);
    lemma_byte_split(x, 0x100_0000);
}

/// Reading back the bytes of a 64-bit value gives the value.
pub proof fn lemma_u64_bytes_roundtrip(v: u64)
    ensures
        spec_u64_bytes(v).len() == 8,
        spec_le64(spec_u64_bytes(v)) == v,
{
    reveal(spec_u64_bytes);
    reveal(spec_le64);
    let x = v as int;
    lemma_byte_split(x, 1);
    lemma_byte_split(x, 0x100);
    lemma_byte_split(x, 0x1_0000);
    lemma_byte_split(x, 0x100_0000);
    lemma_byte_split(x, 0x1_0000_0000);
    lemma_byte_split(x, 0x100_0000_0000);
    lemma_byte_split(x, 0x1_0000_0000_0000);
    lemma_byte_split(x, 0x100_0000_0000_0000);
}

/// A run of zero bytes decodes to zero, at every width.
pub proof fn lemma_le_zero(s: Seq<u8>)
    requires
        forall|j: int| 0 <= j < s.len() ==> s[j] == 0u8,
    ensures
        s.len() == 2 ==> spec_le16(s) == 0,
        s.len() == 4 ==> spec_le32(s) == 0,
        s.len() == 8 ==> spec_le64(s) == 0,
{
    reveal(spec_le16);
    reveal(spec_le32);
    reveal(spec_le64);
}


/// Pointwise-equal byte ranges decode to equal values, at every width.
pub proof fn lemma_le_at_preserved(mv1: Seq<Seq<u8>>, mv2: Seq<Seq<u8>>, seg: int, off: int, n: int)
    requires
        0 <= seg < mv1.len(),
        seg < mv2.len(),
        0 <= off,
        0 <= n,
        off + n <= mv1[seg].len(),
        off + n <= mv2[seg].len(),
        forall|j: int| off <= j < off + n ==> mv2[seg][j] == mv1[seg][j],
    ensures
        n == 2 ==> le16_at(mv2, seg, off) == le16_at(mv1, seg, off),
        n == 4 ==> le32_at(mv2, seg, off) == le32_at(mv1, seg, off),
        n == 8 ==> le64_at(mv2, seg, off) == le64_at(mv1, seg, off),
{
    assert(mv2[seg].subrange(off, off + n) =~= mv1[seg].subrange(off, off + n));
}

/// The 16-bit little-endian value stored at byte offset `off` of segment
/// `seg`.
pub open spec fn le16_at(mv: Seq<Seq<u8>>, seg: int, off: int) -> u16 {
    spec_le16(mv[seg].subrange(off, off + 2))
}

/// The 32-bit little-endian value stored at byte offset `off` of segment
/// `seg`.
pub open spec fn le32_at(mv: Seq<Seq<u8>>, seg: int, off: int) -> u32 {
    spec_le32(mv[seg].subrange(off, off + 4))
}

/// The 64-bit little-endian value stored at byte offset `off` of segment
/// `seg`.
pub open spec fn le64_at(mv: Seq<Seq<u8>>, seg: int, off: int) -> u64 {
    spec_le64(mv[seg].subrange(off, off + 8))
}

/// `s` with the bytes at `[off, off + b.len())` replaced by `b`.
pub open spec fn update_bytes(s: Seq<u8>, off: int, b: Seq<u8>) -> Seq<u8> {
    s.subrange(0, off) + b + s.subrange(off + b.len(), s.len() as int)
}

/// Pointwise consequences of `update_bytes`: the patched range holds `b`,
/// everything else is untouched.
pub proof fn lemma_update_bytes_facts(s: Seq<u8>, off: int, b: Seq<u8>)
    requires
        0 <= off,
        off + b.len() <= s.len(),
    ensures
        update_bytes(s, off, b).len() == s.len(),
        update_bytes(s, off, b).subrange(off, off + b.len() as int) == b,
        forall|j: int|
            0 <= j < s.len() && !(off <= j < off + b.len()) ==> #[trigger] update_bytes(
                s,
                off,
                b,
            )[j] == s[j],
        forall|j: int| 0 <= j < b.len() ==> #[trigger] update_bytes(s, off, b)[off + j] == b[j],
{
    let u = update_bytes(s, off, b);
    assert(u.subrange(off, off + b.len() as int) =~= b);
}

/// Subranges that do not meet the patched range are preserved.
pub proof fn lemma_update_bytes_disjoint(s: Seq<u8>, off: int, b: Seq<u8>, lo: int, hi: int)
    requires
        0 <= off,
        off + b.len() <= s.len(),
        0 <= lo <= hi <= s.len(),
        hi <= off || off + b.len() <= lo,
    ensures
        update_bytes(s, off, b).subrange(lo, hi) == s.subrange(lo, hi),
{
    lemma_update_bytes_facts(s, off, b);
    assert(update_bytes(s, off, b).subrange(lo, hi) =~= s.subrange(lo, hi));
}

/// Segment-based message buffer; see the module documentation.
pub struct Message {
    segs: Vec<Vec<u8>>,
    /// Capacity in words of the newest segment; older segments are frozen.
    tail_cap: usize,
}

impl View for Message {
    type V = Seq<Seq<u8>>;

    closed spec fn view(&self) -> Seq<Seq<u8>> {
        Seq::new(self.segs@.len(), |i: int| self.segs@[i]@)
    }
}

impl Message {
    /// Well-formedness: the view is well formed and the newest segment
    /// fits its recorded capacity.
    pub open spec fn wf(self) -> bool {
        &&& view_wf(self@)
        &&& self.cap_ok()
    }

    /// The newest segment fits its recorded capacity.
    pub closed spec fn cap_ok(self) -> bool {
        &&& self@[self@.len() - 1].len() <= self.tail_cap * WORD_BYTES
        &&& self.tail_cap <= MAX_SEGMENT_WORDS
    }

    /// Whether an allocation of `words` more words still fits the newest
    /// segment's capacity.
    pub closed spec fn can_extend(self, words: int) -> bool {
        self@[self@.len() - 1].len() + words * WORD_BYTES <= self.tail_cap * WORD_BYTES
    }

    /// Room for a larger allocation implies room for a smaller one.
    pub proof fn lemma_can_extend_mono(self, a: int, b: int)
        requires
            a <= b,
            self.can_extend(b),
        ensures
            self.can_extend(a),
    {
    }

    /// A fresh builder message: one segment holding a single zeroed word,
    /// the root pointer cell.
    pub fn new() -> (m: Message)
        ensures
            m.wf(),
            m@.len() == 1,
            m@[0].len() == WORD_BYTES,
            forall|j: int| 0 <= j < WORD_BYTES ==> m@[0][j] == 0u8,
    {
        let mut first: Vec<u8> = Vec::new();
        let mut k: usize = 0;
        while k < WORD_BYTES
            invariant
                k <= WORD_BYTES,
                first@.len() == k,
                forall|j: int| 0 <= j < k ==> first@[j] == 0u8,
            decreases WORD_BYTES - k,
        {
            first.push(0u8);
            k = k + 1;
        }
        let mut segs: Vec<Vec<u8>> = Vec::new();
        segs.push(first);
        Message { segs, tail_cap: FIRST_SEGMENT_WORDS }
    }

    /// Reconstruct a message from decoded segments.  Used by the wire
    /// framing once the segment table and bodies have been validated.
    pub fn from_segments(segs: Vec<Vec<u8>>) -> (m: Message)
        requires
            view_wf(Seq::new(segs@.len(), |i: int| segs@[i]@)),
        ensures
            m.wf(),
            m@ == Seq::new(segs@.len(), |i: int| segs@[i]@),
    {
        let n = segs.len();
        let tail_len = segs[n - 1].len();
        let m = Message { segs, tail_cap: tail_len / WORD_BYTES };
        proof {
            assert(m@ == Seq::new(m.segs@.len(), |i: int| m.segs@[i]@));
            assert(m@[m@.len() - 1].len() == tail_len);
            assert(tail_len % 8 == 0);
        }
        m
    }

    /// Number of segments.
    pub fn seg_count(&self) -> (n: usize)
        ensures
            n == self@.len(),
    {
        self.segs.len()
    }

    /// Byte length of segment `seg`.
    pub fn seg_len(&self, seg: usize) -> (n: usize)
        requires
            seg < self@.len(),
        ensures
            n == self@[seg as int].len(),
    {
        self.segs[seg].len()
    }

    /// A copy of the bytes `[off, off + len)` of segment `seg`.
    pub fn read_bytes(&self, seg: usize, off: usize, len: usize) -> (r: Vec<u8>)
        requires
            seg < self@.len(),
            off + len <= self@[seg as int].len(),
        ensures
            r@ == self@[seg as int].subrange(off as int, off as int + len as int),
    {
        let s: &Vec<u8> = &self.segs[seg];
        let slen = s.len();
        let sl = slice_subrange(s.as_slice(), off, off + len);
        let r = slice_to_vec(sl);
        proof {
            assert(r@ =~= self@[seg as int].subrange(off as int, off as int + len as int));
        }
        r
    }

    /// Read the byte at `(seg, off)`.
    pub fn read_u8(&self, seg: usize, off: usize) -> (v: u8)
        requires
            seg < self@.len(),
            off < self@[seg as int].len(),
        ensures
            v == self@[seg as int][off as int],
    {
        self.segs[seg][off]
    }

    /// Read the little-endian 16-bit value at `(seg, off)`.
    pub fn read_u16(&self, seg: usize, off: usize) -> (v: u16)
        requires
            seg < self@.len(),
            off + 2 <= self@[seg as int].len(),
        ensures
            v == le16_at(self@, seg as int, off as int),
    {
        let s: &Vec<u8> = &self.segs[seg];
        let slen = s.len();
        let b0 = s[off];
        let b1 = s[off + 1];
        proof {
            reveal(spec_le16);
        }
        (b0 as u16) + (b1 as u16) * 0x100
    }

    /// Read the little-endian 32-bit value at `(seg, off)`.
    pub fn read_u32(&self, seg: usize, off: usize) -> (v: u32)
        requires
            seg < self@.len(),
            off + 4 <= self@[seg as int].len(),
        ensures
            v == le32_at(self@, seg as int, off as int),
    {
        let s: &Vec<u8> = &self.segs[seg];
        let slen = s.len();
        let b0 = s[off];
        let b1 = s[off + 1];
        let b2 = s[off + 2];
        let b3 = s[off + 3];
        proof {
            reveal(spec_le32);
        }
        (b0 as u32) + (b1 as u32) * 0x100 + (b2 as u32) * 0x1_0000 + (b3 as u32) * 0x100_0000
    }

    /// Read the little-endian 64-bit value at `(seg, off)`.
    pub fn read_u64(&self, seg: usize, off: usize) -> (v: u64)
        requires
            seg < self@.len(),
            off + 8 <= self@[seg as int].len(),
        ensures
            v == le64_at(self@, seg as int, off as int),
    {
        let s: &Vec<u8> = &self.segs[seg];
        let slen = s.len();
        let b0 = s[off];
        let b1 = s[off + 1];
        let b2 = s[off + 2];
        let b3 = s[off + 3];
        let b4 = s[off + 4];
        let b5 = s[off + 5];
        let b6 = s[off + 6];
        let b7 = s[off + 7];
        proof {
            reveal(spec_le64);
        }
        (b0 as u64) + (b1 as u64) * 0x100 + (b2 as u64) * 0x1_0000 + (b3 as u64) * 0x100_0000 + (
        b4 as u64) * 0x1_0000_0000 + (b5 as u64) * 0x100_0000_0000 + (b6 as u64)
            * 0x1_0000_0000_0000 + (b7 as u64) * 0x100_0000_0000_0000
    }

    /// Overwrite the bytes `[off, off + src.len())` of segment `seg` with
    /// `src`; nothing else changes.
    pub fn write_bytes(&mut self, seg: usize, off: usize, src: &[u8])
        requires
            old(self).wf(),
            seg < old(self)@.len(),
            off + src@.len() <= old(self)@[seg as int].len(),
        ensures
            final(self).wf(),
            final(self)@ == old(self)@.update(
                seg as int,
                update_bytes(old(self)@[seg as int], off as int, src@),
            ),
    {
        let ghost orig = self.segs@[seg as int]@;
        let n = src.len();
        let slen = self.segs[seg].len();
        let s: &mut Vec<u8> = &mut self.segs[seg];
        let mut k: usize = 0;
        while k < n
            invariant
                n == src@.len(),
                off + n <= orig.len(),
                k <= n,
                s@.len() == orig.len(),
                forall|j: int|
                    0 <= j < orig.len() && !(off <= j < off + k) ==> #[trigger] s@[j] == orig[j],
                forall|j: int| 0 <= j < k ==> #[trigger] s@[off + j] == src@[j],
                off + n <= slen,
            decreases n - k,
        {
            s.set(off + k, src[k]);
            k = k + 1;
        }
        proof {
            lemma_update_bytes_facts(orig, off as int, src@);
            assert forall|j: int| 0 <= j < orig.len() implies s@[j] == update_bytes(
                orig,
                off as int,
                src@,
            )[j] by {
                if off <= j < off + n {
                    assert(s@[off + (j - off)] == src@[j - off]);
                }
            };
            assert(s@ =~= update_bytes(orig, off as int, src@));
            assert(self@ =~= old(self)@.update(
                seg as int,
                update_bytes(old(self)@[seg as int], off as int, src@),
            ));
        }
    }

    /// Write `v` little-endian at `(seg, off)`.
    pub fn write_u16(&mut self, seg: usize, off: usize, v: u16)
        requires
            old(self).wf(),
            seg < old(self)@.len(),
            off + 2 <= old(self)@[seg as int].len(),
        ensures
            final(self).wf(),
            final(self)@ == old(self)@.update(
                seg as int,
                update_bytes(old(self)@[seg as int], off as int, spec_u16_bytes(v)),
            ),
            le16_at(final(self)@, seg as int, off as int) == v,
    {
        let mut bytes: Vec<u8> = Vec::new();
        bytes.push((v % 0x100) as u8);
        bytes.push((v / 0x100) as u8);
        proof {
            reveal(spec_u16_bytes);
            lemma_u16_bytes_roundtrip(v);
            assert(bytes@ =~= spec_u16_bytes(v));
            lemma_update_bytes_facts(old(self)@[seg as int], off as int, spec_u16_bytes(v));
        }
        self.write_bytes(seg, off, bytes.as_slice());
    }

    /// Write `v` little-endian at `(seg, off)`.
    pub fn write_u32(&mut self, seg: usize, off: usize, v: u32)
        requires
            old(self).wf(),
            seg < old(self)@.len(),
            off + 4 <= old(self)@[seg as int].len(),
        ensures
            final(self).wf(),
            final(self)@ == old(self)@.update(
                seg as int,
                update_bytes(old(self)@[seg as int], off as int, spec_u32_bytes(v)),
            ),
            le32_at(final(self)@, seg as int, off as int) == v,
    {
        let mut bytes: Vec<u8> = Vec::new();
        bytes.push((v % 0x100) as u8);
        bytes.push(((v / 0x100) % 0x100) as u8);
        bytes.push(((v / 0x1_0000) % 0x100) as u8);
        bytes.push((v / 0x100_0000) as u8);
        proof {
            reveal(spec_u32_bytes);
            lemma_u32_bytes_roundtrip(v);
            assert(bytes@ =~= spec_u32_bytes(v));
            lemma_update_bytes_facts(old(self)@[seg as int], off as int, spec_u32_bytes(v));
        }
        self.write_bytes(seg, off, bytes.as_slice());
    }

    /// Write `v` little-endian at `(seg, off)`.
    pub fn write_u64(&mut self, seg: usize, off: usize, v: u64)
        requires
            old(self).wf(),
            seg < old(self)@.len(),
            off + 8 <= old(self)@[seg as int].len(),
        ensures
            final(self).wf(),
            final(self)@ == old(self)@.update(
                seg as int,
                update_bytes(old(self)@[seg as int], off as int, spec_u64_bytes(v)),
            ),
            le64_at(final(self)@, seg as int, off as int) == v,
    {
        let mut bytes: Vec<u8> = Vec::new();
        bytes.push((v % 0x100) as u8);
        bytes.push(((v / 0x100) % 0x100) as u8);
        bytes.push(((v / 0x1_0000) % 0x100) as u8);
        bytes.push(((v / 0x100_0000) % 0x100) as u8);
        bytes.push(((v / 0x1_0000_0000) % 0x100) as u8);
        bytes.push(((v / 0x100_0000_0000) % 0x100) as u8);
        bytes.push(((v / 0x1_0000_0000_0000) % 0x100) as u8);
        bytes.push((v / 0x100_0000_0000_0000) as u8);
        proof {
            reveal(spec_u64_bytes);
            lemma_u64_bytes_roundtrip(v);
            assert(bytes@ =~= spec_u64_bytes(v));
            lemma_update_bytes_facts(old(self)@[seg as int], off as int, spec_u64_bytes(v));
        }
        self.write_bytes(seg, off, bytes.as_slice());
    }

    /// Extend segment `seg` in place by `words` zeroed words, when that
    /// segment is the newest one and its capacity allows; otherwise leave
    /// the message untouched.
    pub fn try_alloc_in(&mut self, seg: usize, words: usize) -> (r: Option<usize>)
        requires
            old(self).wf(),
            seg < old(self)@.len(),
            0 < words <= MAX_SEGMENT_WORDS,
        ensures
            final(self).wf(),
            final(self)@.len() == old(self)@.len(),
            r is None ==> *final(self) == *old(self) && (seg != old(self)@.len() - 1
                || !old(self).can_extend(words as int)),
            r matches Some(off) ==> {
                &&& seg == old(self)@.len() - 1
                &&& off * WORD_BYTES == old(self)@[seg as int].len()
                &&& final(self)@[seg as int].len() == off * WORD_BYTES + words * WORD_BYTES
                &&& final(self)@[seg as int].subrange(0, old(self)@[seg as int].len() as int)
                    == old(self)@[seg as int]
                &&& forall|j: int|
                    off * WORD_BYTES <= j < off * WORD_BYTES + words * WORD_BYTES
                        ==> final(self)@[seg as int][j] == 0u8
                &&& forall|i: int|
                    0 <= i < old(self)@.len() && i != seg ==> final(self)@[i] == old(self)@[i]
                &&& off + words <= MAX_SEGMENT_WORDS
            },
    {
        let last = self.segs.len() - 1;
        if seg != last {
            return None;
        }
        let tail_len = self.segs[last].len();
        if tail_len / WORD_BYTES + words <= self.tail_cap {
            let ghost orig = self.segs@[last as int]@;
            let s: &mut Vec<u8> = &mut self.segs[last];
            let mut k: usize = 0;
            let total = words * WORD_BYTES;
            while k < total
                invariant
                    k <= total,
                    s@.len() == orig.len() + k,
                    s@.subrange(0, orig.len() as int) == orig,
                    forall|j: int| orig.len() <= j < orig.len() + k ==> #[trigger] s@[j] == 0u8,
                decreases total - k,
            {
                s.push(0u8);
                proof {
                    assert(s@.subrange(0, orig.len() as int) =~= orig);
                }
                k = k + 1;
            }
            proof {
                assert(forall|i: int|
                    0 <= i < old(self)@.len() && i != last ==> self@[i] == old(self)@[i]);
            }
            Some(tail_len / WORD_BYTES)
        } else {
            None
        }
    }

    /// Allocate `words` zeroed words.  The newest segment is extended in
    /// place when its capacity allows; otherwise a fresh segment with
    /// doubled capacity is started.  Previously returned offsets keep
    /// addressing the same bytes.
    pub fn allocate(&mut self, words: usize) -> (r: (usize, usize))
        requires
            old(self).wf(),
            0 < words <= MAX_SEGMENT_WORDS,
            old(self)@.len() < MAX_SEGMENTS,
        ensures
            final(self).wf(),
            r.0 < final(self)@.len(),
            old(self).can_extend(words as int) ==> r.0 == old(self)@.len() - 1 && final(self)@.len()
                == old(self)@.len(),
            !old(self).can_extend(words as int) ==> r.0 == old(self)@.len() && final(self)@.len()
                == old(self)@.len() + 1,
            r.0 < old(self)@.len() ==> r.1 * WORD_BYTES == old(self)@[r.0 as int].len()
                && final(self)@[r.0 as int].subrange(0, old(self)@[r.0 as int].len() as int)
                == old(self)@[r.0 as int],
            r.0 == old(self)@.len() ==> r.1 == 0,
            final(self)@[r.0 as int].len() == r.1 * WORD_BYTES + words * WORD_BYTES,
            forall|i: int|
                0 <= i < old(self)@.len() && i != r.0 ==> final(self)@[i] == old(self)@[i],
            forall|j: int|
                r.1 * WORD_BYTES <= j < r.1 * WORD_BYTES + words * WORD_BYTES ==> final(self)@[
                    r.0 as int
                ][j] == 0u8,
            r.1 + words <= MAX_SEGMENT_WORDS,
    {
        let last = self.segs.len() - 1;
        let tail_len = self.segs[last].len();
        if tail_len / WORD_BYTES + words <= self.tail_cap {
            let ghost orig = self.segs@[last as int]@;
            let s: &mut Vec<u8> = &mut self.segs[last];
            let mut k: usize = 0;
            let total = words * WORD_BYTES;
            while k < total
                invariant
                    k <= total,
                    s@.len() == orig.len() + k,
                    s@.subrange(0, orig.len() as int) == orig,
                    forall|j: int| orig.len() <= j < orig.len() + k ==> #[trigger] s@[j] == 0u8,
                decreases total - k,
            {
                s.push(0u8);
                proof {
                    assert(s@.subrange(0, orig.len() as int) =~= orig);
                }
                k = k + 1;
            }
            proof {
                assert(forall|i: int|
                    0 <= i < old(self)@.len() && i != last ==> self@[i] == old(self)@[i]);
            }
            (last, tail_len / WORD_BYTES)
        } else {
            let mut cap = self.tail_cap * 2;
            if cap > MAX_SEGMENT_WORDS {
                cap = MAX_SEGMENT_WORDS;
            }
            if cap < words {
                cap = words;
            }
            let mut fresh: Vec<u8> = Vec::new();
            let mut k: usize = 0;
            let total = words * WORD_BYTES;
            while k < total
                invariant
                    k <= total,
                    fresh@.len() == k,
                    forall|j: int| 0 <= j < k ==> fresh@[j] == 0u8,
                decreases total - k,
            {
                fresh.push(0u8);
                k = k + 1;
            }
            let seg = self.segs.len();
            self.segs.push(fresh);
            self.tail_cap = cap;
            proof {
                assert(forall|i: int|
                    0 <= i < old(self)@.len() && i != seg ==> self@[i] == old(self)@[i]);
            }
            (seg, 0)
        }
    }
}

} // verus!
