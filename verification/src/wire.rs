//! Wire framing.
//!
//! A whole message crosses a byte stream as: the segment count minus one
//! as a 32-bit little-endian integer, one 32-bit little-endian word
//! count per segment, zero padding up to an 8-byte boundary, then every
//! segment's bytes in order.  Decoding validates the declared sizes
//! against a caller-supplied traversal budget before it touches a single
//! body byte, so a hostile header cannot cause unbounded allocation; a
//! stream that ends inside a frame fails as truncated, distinguishable
//! from a stream that ends cleanly before any byte.

use vstd::prelude::*;
use crate::error::Error;
use crate::message::{
    spec_le32, spec_u32_bytes, view_wf, Message, MAX_SEGMENTS, MAX_SEGMENT_WORDS,
};

verus! {

/// `n` rounded up to a multiple of 8.
pub open spec fn pad8(n: int) -> int {
    ((n + 7) / 8) * 8
}

/// Bytes of the segment table for `n` segments, padding included.
pub open spec fn table_len(n: int) -> int {
    pad8(4 * (n + 1))
}

/// Padding bounds: `pad8` rounds up, by less than 8, to a multiple of 8.
pub proof fn lemma_pad8(x: int)
    requires
        0 <= x,
    ensures
        x <= pad8(x) < x + 8,
        pad8(x) % 8 == 0,
{
    vstd::arithmetic::div_mod::lemma_fundamental_div_mod(x + 7, 8);
    assert((x + 7) % 8 < 8) by {
        vstd::arithmetic::div_mod::lemma_mod_bound(x + 7, 8);
    }
    assert(pad8(x) == x + 7 - (x + 7) % 8);
    assert(pad8(x) % 8 == 0) by {
        vstd::arithmetic::div_mod::lemma_mod_multiples_basic((x + 7) / 8, 8);
    }
}

/// Concatenation of the first `i` segments.
pub open spec fn cat_to(mv: Seq<Seq<u8>>, i: int) -> Seq<u8>
    decreases i,
{
    if i <= 0 {
        Seq::empty()
    } else {
        cat_to(mv, i - 1) + mv[i - 1]
    }
}

/// Total bytes of the first `i` segments.
pub open spec fn bsum(mv: Seq<Seq<u8>>, i: int) -> int
    decreases i,
{
    if i <= 0 {
        0
    } else {
        bsum(mv, i - 1) + mv[i - 1].len()
    }
}

/// The word-count entries of the table, concatenated.
pub open spec fn table_entries(mv: Seq<Seq<u8>>, i: int) -> Seq<u8>
    decreases i,
{
    if i <= 0 {
        Seq::empty()
    } else {
        table_entries(mv, i - 1) + spec_u32_bytes(((mv[i - 1].len() / 8) as u32))
    }
}

/// A run of `n` zero bytes.
pub open spec fn zeros(n: int) -> Seq<u8> {
    Seq::new(n as nat, |j: int| 0u8)
}

/// The full encoded frame of a message view.
pub open spec fn spec_encode(mv: Seq<Seq<u8>>) -> Seq<u8> {
    let head = spec_u32_bytes(((mv.len() - 1) as u32)) + table_entries(mv, mv.len() as int);
    head + zeros(table_len(mv.len() as int) - head.len()) + cat_to(mv, mv.len() as int)
}

/// The declared word count of segment `i`, read from the table.
pub open spec fn entry_words(b: Seq<u8>, i: int) -> int {
    spec_le32(b.subrange(4 + 4 * i, 8 + 4 * i)) as int
}

/// Sum of the declared word counts of the first `i` segments.
pub open spec fn declared_words(b: Seq<u8>, i: int) -> int
    decreases i,
{
    if i <= 0 {
        0
    } else {
        declared_words(b, i - 1) + entry_words(b, i - 1)
    }
}

/// Whether every declared segment length fits the per-segment cap.
pub open spec fn entries_capped(b: Seq<u8>, n: int) -> bool {
    forall|i: int| 0 <= i < n ==> entry_words(b, i) <= MAX_SEGMENT_WORDS
}

/// Decoding a byte frame under a word budget; see the module
/// documentation for the layout.
pub open spec fn spec_decode(b: Seq<u8>, budget: u64) -> Result<Seq<Seq<u8>>, Error> {
    if b.len() == 0 {
        Err(Error::EmptyStream)
    } else if b.len() < 4 {
        Err(Error::TruncatedStream)
    } else {
        let n = spec_le32(b.subrange(0, 4)) + 1;
        if n > MAX_SEGMENTS {
            Err(Error::TraversalLimitExceeded)
        } else if b.len() < table_len(n) {
            Err(Error::TruncatedStream)
        } else if !entries_capped(b, n) || declared_words(b, n) > budget {
            Err(Error::TraversalLimitExceeded)
        } else if b.len() != table_len(n) + 8 * declared_words(b, n) {
            Err(Error::TruncatedStream)
        } else {
            Ok(
                Seq::new(
                    n as nat,
                    |i: int|
                        b.subrange(
                            table_len(n) + 8 * declared_words(b, i),
                            table_len(n) + 8 * declared_words(b, i) + 8 * entry_words(b, i),
                        ),
                ),
            )
        }
    }
}

/// The total words a frame for `mv` declares.
pub open spec fn spec_total_words(mv: Seq<Seq<u8>>) -> int {
    bsum(mv, mv.len() as int) / 8
}

/// `bsum` grows monotonically and bounds each segment.
proof fn lemma_bsum_bounds(mv: Seq<Seq<u8>>, i: int, n: int)
    requires
        0 <= i < n <= mv.len(),
    ensures
        bsum(mv, i) + mv[i].len() <= bsum(mv, n),
        0 <= bsum(mv, i),
    decreases n,
{
    if i == n - 1 {
        lemma_bsum_nonneg(mv, i);
    } else {
        lemma_bsum_bounds(mv, i, n - 1);
    }
}

/// Byte sums are non-negative.
proof fn lemma_bsum_nonneg(mv: Seq<Seq<u8>>, i: int)
    ensures
        0 <= bsum(mv, i),
    decreases i,
{
    if i > 0 {
        lemma_bsum_nonneg(mv, i - 1);
    }
}

/// The concatenation of the first `i` segments has `bsum(mv, i)` bytes.
proof fn lemma_cat_len(mv: Seq<Seq<u8>>, i: int)
    ensures
        cat_to(mv, i).len() == if i <= 0 {
            0
        } else {
            bsum(mv, i)
        },
    decreases i,
{
    if i > 0 {
        lemma_cat_len(mv, i - 1);
    }
}

/// Segment `i` sits at `[bsum(mv, i), bsum(mv, i) + mv[i].len())` of the
/// concatenation of the first `n` segments.
proof fn lemma_cat_extract(mv: Seq<Seq<u8>>, i: int, n: int)
    requires
        0 <= i < n <= mv.len(),
    ensures
        cat_to(mv, n).subrange(bsum(mv, i), bsum(mv, i) + mv[i].len()) == mv[i],
    decreases n,
{
    lemma_cat_len(mv, n);
    lemma_cat_len(mv, i);
    lemma_bsum_nonneg(mv, i);
    if i == n - 1 {
        lemma_cat_len(mv, n - 1);
        assert(cat_to(mv, n) == cat_to(mv, n - 1) + mv[i]);
        assert(cat_to(mv, n).subrange(bsum(mv, i), bsum(mv, i) + mv[i].len()) =~= mv[i]);
    } else {
        lemma_cat_extract(mv, i, n - 1);
        lemma_cat_len(mv, n - 1);
        lemma_bsum_bounds(mv, i, n - 1);
        assert(cat_to(mv, n) == cat_to(mv, n - 1) + mv[n - 1]);
        assert(cat_to(mv, n).subrange(bsum(mv, i), bsum(mv, i) + mv[i].len()) =~= cat_to(
            mv,
            n - 1,
        ).subrange(bsum(mv, i), bsum(mv, i) + mv[i].len()));
    }
}

/// The table-entry area has 4 bytes per segment.
proof fn lemma_table_entries_len(mv: Seq<Seq<u8>>, i: int)
    ensures
        table_entries(mv, i).len() == if i <= 0 {
            0
        } else {
            4 * i
        },
    decreases i,
{
    if i > 0 {
        lemma_table_entries_len(mv, i - 1);
        crate::message::lemma_u32_bytes_roundtrip(((mv[i - 1].len() / 8) as u32));
    }
}

/// Entry `i` of the table area holds the bytes of segment `i`'s word
/// count.
proof fn lemma_table_extract(mv: Seq<Seq<u8>>, i: int, n: int)
    requires
        0 <= i < n <= mv.len(),
    ensures
        table_entries(mv, n).subrange(4 * i, 4 * i + 4) == spec_u32_bytes(
            ((mv[i].len() / 8) as u32),
        ),
    decreases n,
{
    lemma_table_entries_len(mv, n);
    lemma_table_entries_len(mv, i);
    crate::message::lemma_u32_bytes_roundtrip(((mv[i].len() / 8) as u32));
    if i == n - 1 {
        lemma_table_entries_len(mv, n - 1);
        assert(table_entries(mv, n).subrange(4 * i, 4 * i + 4) =~= spec_u32_bytes(
            ((mv[i].len() / 8) as u32),
        ));
    } else {
        lemma_table_extract(mv, i, n - 1);
        lemma_table_entries_len(mv, n - 1);
        assert(table_entries(mv, n).subrange(4 * i, 4 * i + 4) =~= table_entries(
            mv,
            n - 1,
        ).subrange(4 * i, 4 * i + 4));
    }
}

/// Declared words of an encoded frame equal the real word counts,
/// prefix by prefix.
proof fn lemma_declared_words_encode(mv: Seq<Seq<u8>>, i: int)
    requires
        view_wf(mv),
        0 <= i <= mv.len(),
    ensures
        8 * declared_words(spec_encode(mv), i) == bsum(mv, i),
        forall|j: int| 0 <= j < i ==> #[trigger] entry_words(spec_encode(mv), j) == mv[j].len()
            / 8,
    decreases i,
{
    if i > 0 {
        lemma_declared_words_encode(mv, i - 1);
        lemma_encode_entry(mv, i - 1);
    }
}

/// Entry `i` of an encoded frame decodes to segment `i`'s word count.
proof fn lemma_encode_entry(mv: Seq<Seq<u8>>, i: int)
    requires
        view_wf(mv),
        0 <= i < mv.len(),
    ensures
        entry_words(spec_encode(mv), i) == mv[i].len() / 8,
{
    let n = mv.len() as int;
    let b = spec_encode(mv);
    let w = ((mv[i].len() / 8) as u32);
    crate::message::lemma_u32_bytes_roundtrip(((n - 1) as u32));
    lemma_table_entries_len(mv, n);
    lemma_pad8(4 * n + 4);
    lemma_cat_len(mv, n);
    lemma_bsum_nonneg(mv, n);
    lemma_table_extract(mv, i, n);
    crate::message::lemma_u32_bytes_roundtrip(w);
    assert(b.subrange(4 + 4 * i, 8 + 4 * i) =~= table_entries(mv, n).subrange(4 * i, 4 * i + 4));
}

/// Round trip: decoding an encoded well-formed message under a
/// sufficient budget reproduces the very same segments.
pub proof fn lemma_encode_decode_roundtrip(mv: Seq<Seq<u8>>, budget: u64)
    requires
        view_wf(mv),
        spec_total_words(mv) <= budget,
    ensures
        spec_decode(spec_encode(mv), budget) == Ok::<Seq<Seq<u8>>, Error>(mv),
{
    let n = mv.len() as int;
    let b = spec_encode(mv);
    let head = spec_u32_bytes(((n - 1) as u32)) + table_entries(mv, n);
    crate::message::lemma_u32_bytes_roundtrip(((n - 1) as u32));
    lemma_table_entries_len(mv, n);
    lemma_cat_len(mv, n);
    lemma_bsum_nonneg(mv, n);
    lemma_pad8(4 * n + 4);
    assert(b.subrange(0, 4) =~= spec_u32_bytes(((n - 1) as u32)));
    assert(spec_le32(b.subrange(0, 4)) == (n - 1) as u32);
    lemma_declared_words_encode(mv, n);
    assert(entries_capped(b, n));
    assert(8 * declared_words(b, n) == bsum(mv, n));
    assert(bsum(mv, n) % 8 == 0) by {
        lemma_bsum_mod8(mv, n);
    }
    assert(declared_words(b, n) == spec_total_words(mv));
    assert(b.len() == table_len(n) + 8 * declared_words(b, n));
    let dec = spec_decode(b, budget);
    assert(dec is Ok);
    let segs = dec->Ok_0;
    assert forall|i: int| 0 <= i < n implies segs[i] == mv[i] by {
        lemma_declared_words_encode(mv, i);
        lemma_cat_extract(mv, i, n);
        lemma_bsum_bounds(mv, i, n);
        lemma_cat_len(mv, n);
        assert(b.subrange(
            table_len(n) + 8 * declared_words(b, i),
            table_len(n) + 8 * declared_words(b, i) + 8 * entry_words(b, i),
        ) =~= cat_to(mv, n).subrange(bsum(mv, i), bsum(mv, i) + mv[i].len()));
    }
    assert(segs =~= mv);
}

/// Byte sums of word-aligned segments are word-aligned.
proof fn lemma_bsum_mod8(mv: Seq<Seq<u8>>, i: int)
    requires
        view_wf(mv),
        0 <= i <= mv.len(),
    ensures
        bsum(mv, i) % 8 == 0,
    decreases i,
{
    if i > 0 {
        lemma_bsum_mod8(mv, i - 1);
    }
}

/// Little-endian bytes of `v`, as a vector.
fn u32_le_vec(v: u32) -> (r: Vec<u8>)
    ensures
        r@ == spec_u32_bytes(v),
{
    let mut r: Vec<u8> = Vec::new();
    r.push((v % 0x100) as u8);
    r.push(((v / 0x100) % 0x100) as u8);
    r.push(((v / 0x1_0000) % 0x100) as u8);
    r.push((v / 0x100_0000) as u8);
    proof {
        reveal(crate::message::spec_u32_bytes);
        assert(r@ =~= spec_u32_bytes(v));
    }
    r
}

/// Encode a whole message for the wire; see the module documentation.
pub fn encode(m: &Message) -> (r: Vec<u8>)
    requires
        m.wf(),
    ensures
        r@ == spec_encode(m@),
{
    let n = m.seg_count();
    let mut out: Vec<u8> = Vec::new();
    let head = u32_le_vec((n - 1) as u32);
    out.append(&mut { head });
    let mut i: usize = 0;
    while i < n
        invariant
            m.wf(),
            n == m@.len(),
            i <= n,
            out@ == spec_u32_bytes(((n - 1) as u32)) + table_entries(m@, i as int),
        decreases n - i,
    {
        proof {
            crate::message::lemma_u32_bytes_roundtrip(((m@[i as int].len() / 8) as u32));
        }
        let words = m.seg_len(i) / 8;
        let mut e = u32_le_vec(words as u32);
        out.append(&mut e);
        proof {
            assert(out@ =~= spec_u32_bytes(((n - 1) as u32)) + table_entries(m@, i + 1));
        }
        i = i + 1;
    }
    proof {
        lemma_table_entries_len(m@, n as int);
        crate::message::lemma_u32_bytes_roundtrip(((n - 1) as u32));
        lemma_pad8(4 * (n as int) + 4);
    }
    let ghost head_len = out@.len() as int;
    let ghost head = out@;
    let tl = ((4 * (n + 1)) + 7) / 8 * 8;
    proof {
        assert(tl == table_len(n as int));
        assert(head_len == 4 + 4 * (n as int));
        assert(head_len <= tl < head_len + 8);
    }
    while out.len() < tl
        invariant
            head_len <= tl,
            head.len() == head_len,
            head_len <= out@.len() <= tl,
            out@.subrange(0, head_len) == head,
            forall|j: int| head_len <= j < out@.len() ==> out@[j] == 0u8,
        decreases tl - out@.len(),
    {
        out.push(0u8);
        proof {
            assert(out@.subrange(0, head_len) =~= head);
        }
    }
    proof {
        assert(out@ =~= head + zeros(table_len(n as int) - head_len));
    }
    let ghost with_table = out@;
    proof {
        assert(with_table == head + zeros(table_len(n as int) - head_len));
    }
    let mut i: usize = 0;
    while i < n
        invariant
            m.wf(),
            n == m@.len(),
            i <= n,
            out@ == with_table + cat_to(m@, i as int),
        decreases n - i,
    {
        let len = m.seg_len(i);
        let mut body = m.read_bytes(i, 0, len);
        out.append(&mut body);
        proof {
            assert(m@[i as int].subrange(0, m@[i as int].len() as int) =~= m@[i as int]);
            assert(out@ =~= with_table + cat_to(m@, i + 1));
        }
        i = i + 1;
    }
    proof {
        assert(out@ =~= spec_encode(m@));
    }
    out
}


/// Decode one whole frame under a word budget; see `spec_decode`.  The
/// declared sizes are validated before any body byte is interpreted.
pub fn decode(bytes: &[u8], budget: u64) -> (r: Result<Message, Error>)
    ensures
        (match r {
            Ok(m) => m.wf() && spec_decode(bytes@, budget) == Ok::<Seq<Seq<u8>>, Error>(m@),
            Err(e) => spec_decode(bytes@, budget) == Err::<Seq<Seq<u8>>, Error>(e),
        }),
{
    let b = vstd::slice::slice_to_vec(bytes);
    let blen = b.len();
    if blen == 0 {
        return Err(Error::EmptyStream);
    }
    if blen < 4 {
        return Err(Error::TruncatedStream);
    }
    let n32 = read_le32(&b, 0);
    proof {
        assert(b@.subrange(0, 4) =~= bytes@.subrange(0, 4));
    }
    if n32 >= MAX_SEGMENTS as u32 {
        return Err(Error::TraversalLimitExceeded);
    }
    let n = (n32 + 1) as usize;
    let tl = ((4 * (n + 1)) + 7) / 8 * 8;
    if blen < tl {
        return Err(Error::TruncatedStream);
    }
    let mut sum: u64 = 0;
    let mut i: usize = 0;
    while i < n
        invariant
            b@ == bytes@,
            1 <= n <= MAX_SEGMENTS,
            i <= n,
            4 + 4 * n <= tl <= b@.len(),
            tl == table_len(n as int),
            4 <= b@.len(),
            spec_le32(b@.subrange(0, 4)) + 1 == n,
            sum == declared_words(b@, i as int),
            forall|j: int| 0 <= j < i ==> entry_words(b@, j) <= MAX_SEGMENT_WORDS,
            sum <= (i as u64) * (MAX_SEGMENT_WORDS as u64),
        decreases n - i,
    {
        let w = read_le32(&b, 4 + 4 * i);
        if w > MAX_SEGMENT_WORDS as u32 {
            proof {
                assert(entry_words(b@, i as int) > MAX_SEGMENT_WORDS);
                assert(!entries_capped(b@, n as int));
            }
            return Err(Error::TraversalLimitExceeded);
        }
        proof {
            assert((i as u64 + 1) * (MAX_SEGMENT_WORDS as u64) == (i as u64) * (
            MAX_SEGMENT_WORDS as u64) + (MAX_SEGMENT_WORDS as u64)) by (nonlinear_arith);
        }
        sum = sum + (w as u64);
        i = i + 1;
    }
    if sum > budget {
        return Err(Error::TraversalLimitExceeded);
    }
    proof {
        assert((n as u64) * (MAX_SEGMENT_WORDS as u64) <= 512u64 * 0x0FFF_FFFFu64)
            by (nonlinear_arith)
            requires
                n <= 512,
        ;
    }
    if (blen as u64) != (tl as u64) + 8 * sum {
        return Err(Error::TruncatedStream);
    }
    let mut segs: Vec<Vec<u8>> = Vec::new();
    let mut off: usize = tl;
    let mut i: usize = 0;
    let bl = b.len();
    while i < n
        invariant
            b@ == bytes@,
            bl == b@.len(),
            n <= MAX_SEGMENTS,
            1 <= n,
            i <= n,
            4 + 4 * n <= tl <= b@.len(),
            forall|j: int| 0 <= j < n ==> entry_words(b@, j) <= MAX_SEGMENT_WORDS,
            off == tl + 8 * declared_words(b@, i as int),
            b@.len() == tl + 8 * declared_words(b@, n as int),
            declared_words(b@, i as int) <= declared_words(b@, n as int),
            segs@.len() == i,
            forall|j: int|
                0 <= j < i ==> #[trigger] segs@[j]@ == b@.subrange(
                    tl + 8 * declared_words(b@, j),
                    tl + 8 * declared_words(b@, j) + 8 * entry_words(b@, j),
                ),
        decreases n - i,
    {
        let w = read_le32(&b, 4 + 4 * i) as usize;
        proof {
            assert(entry_words(b@, i as int) == w);
            lemma_declared_prefix(b@, i as int + 1, n as int);
            assert(declared_words(b@, i as int + 1) == declared_words(b@, i as int)
                + entry_words(b@, i as int));
            assert(off + 8 * w <= bl);
        }
        let seg = vstd::slice::slice_to_vec(
            vstd::slice::slice_subrange(b.as_slice(), off, off + 8 * w),
        );
        segs.push(seg);
        off = off + 8 * w;
        i = i + 1;
    }
    let ghost segview = Seq::new(segs@.len(), |j: int| segs@[j]@);
    proof {
        assert forall|j: int| 0 <= j < n implies (#[trigger] segview[j]).len() % 8 == 0
            && segview[j].len() <= MAX_SEGMENT_WORDS * 8 by {
            lemma_declared_prefix(b@, j + 1, n as int);
            lemma_declared_nonneg(b@, j);
            assert(segview[j].len() == 8 * entry_words(b@, j));
            vstd::arithmetic::div_mod::lemma_mod_multiples_basic(entry_words(b@, j), 8);
        }
        assert(view_wf(segview));
    }
    let m = Message::from_segments(segs);
    proof {
        let dec = spec_decode(bytes@, budget);
        assert(dec is Ok);
        assert(m@ =~= dec->Ok_0);
    }
    Ok(m)
}

/// Prefix sums of declared words are non-negative.
proof fn lemma_declared_nonneg(b: Seq<u8>, i: int)
    ensures
        0 <= declared_words(b, i),
    decreases i,
{
    if i > 0 {
        lemma_declared_nonneg(b, i - 1);
    }
}

/// Prefix sums of declared words are monotone.
proof fn lemma_declared_prefix(b: Seq<u8>, i: int, n: int)
    requires
        0 <= i <= n,
    ensures
        declared_words(b, i) <= declared_words(b, n),
        0 <= declared_words(b, i),
    decreases n,
{
    lemma_declared_nonneg(b, i);
    if i < n {
        lemma_declared_prefix(b, i, n - 1);
    }
}

/// Read the 32-bit little-endian value at `off` of a byte vector.
fn read_le32(b: &Vec<u8>, off: usize) -> (v: u32)
    requires
        off + 4 <= b@.len(),
    ensures
        v == spec_le32(b@.subrange(off as int, off as int + 4)),
{
    let l = b.len();
    let b0 = b[off];
    let b1 = b[off + 1];
    let b2 = b[off + 2];
    let b3 = b[off + 3];
    proof {
        reveal(crate::message::spec_le32);
    }
    (b0 as u32) + (b1 as u32) * 0x100 + (b2 as u32) * 0x1_0000 + (b3 as u32) * 0x100_0000
}

/// The full frame length, once enough of the header has arrived to know
/// it.
pub open spec fn spec_frame_len(b: Seq<u8>) -> Option<int> {
    if b.len() < 4 {
        Option::None
    } else {
        let n = spec_le32(b.subrange(0, 4)) + 1;
        if n > MAX_SEGMENTS {
            Option::None
        } else if b.len() < table_len(n) {
            Option::None
        } else {
            Option::Some(table_len(n) + 8 * declared_words(b, n))
        }
    }
}

/// Whether the bytes received so far already doom the frame: a header
/// that declares an implausible segment count, or segment sizes over the
/// caller's budget.  Decided from the header alone, before any body
/// byte.
pub open spec fn spec_header_error(b: Seq<u8>, budget: u64) -> Option<Error> {
    if b.len() < 4 {
        Option::None
    } else {
        let n = spec_le32(b.subrange(0, 4)) + 1;
        if n > MAX_SEGMENTS {
            Option::Some(Error::TraversalLimitExceeded)
        } else if b.len() < table_len(n) {
            Option::None
        } else if !entries_capped(b, n) || declared_words(b, n) > budget {
            Option::Some(Error::TraversalLimitExceeded)
        } else {
            Option::None
        }
    }
}

/// Incremental frame decoder for a byte stream: bytes are fed as they
/// arrive; a frame whose header over-declares is rejected as soon as the
/// table is complete, before a single body byte has been consumed; the
/// caller suspends between `push` calls, never inside them.
pub struct StreamDecoder {
    buf: Vec<u8>,
    budget: u64,
}

impl StreamDecoder {
    /// The bytes fed so far.
    pub closed spec fn bytes(self) -> Seq<u8> {
        self.buf@
    }

    /// The traversal budget the decoder enforces.
    pub closed spec fn spec_budget(self) -> u64 {
        self.budget
    }

    /// A fresh decoder with a word budget.
    pub fn new(budget: u64) -> (r: StreamDecoder)
        ensures
            r.bytes() == Seq::<u8>::empty(),
            r.spec_budget() == budget,
    {
        StreamDecoder { buf: Vec::new(), budget }
    }

    /// Feed a chunk.  `Ok(true)` once a full frame has arrived,
    /// `Ok(false)` while more bytes are needed, and an error as soon as
    /// the header alone rules the frame out.
    pub fn push(&mut self, chunk: &[u8]) -> (r: Result<bool, Error>)
        ensures
            final(self).bytes() == old(self).bytes() + chunk@,
            final(self).spec_budget() == old(self).spec_budget(),
            (match r {
                Err(e) => spec_header_error(final(self).bytes(), final(self).spec_budget())
                    == Some(e),
                Ok(done) => spec_header_error(final(self).bytes(), final(self).spec_budget())
                    is None && (done <==> (spec_frame_len(final(self).bytes()) matches Some(l)
                    && final(self).bytes().len() >= l)),
            }),
    {
        let n_chunk = chunk.len();
        let mut k: usize = 0;
        while k < n_chunk
            invariant
                k <= n_chunk,
                n_chunk == chunk@.len(),
                self.buf@ == old(self).buf@ + chunk@.subrange(0, k as int),
                self.budget == old(self).budget,
            decreases n_chunk - k,
        {
            let byte = chunk[k];
            self.buf.push(byte);
            proof {
                assert(self.buf@ =~= old(self).buf@ + chunk@.subrange(0, k + 1));
            }
            k = k + 1;
        }
        proof {
            assert(self.buf@ =~= old(self).buf@ + chunk@);
        }
        let blen = self.buf.len();
        if blen < 4 {
            return Ok(false);
        }
        let n32 = read_le32(&self.buf, 0);
        if n32 >= MAX_SEGMENTS as u32 {
            return Err(Error::TraversalLimitExceeded);
        }
        let n = (n32 + 1) as usize;
        let tl = ((4 * (n + 1)) + 7) / 8 * 8;
        proof {
            lemma_pad8(4 * (n as int) + 4);
        }
        if blen < tl {
            return Ok(false);
        }
        let mut sum: u64 = 0;
        let mut i: usize = 0;
        while i < n
            invariant
                1 <= n <= MAX_SEGMENTS,
                i <= n,
                4 + 4 * n <= tl <= self.buf@.len(),
                tl == table_len(n as int),
                4 <= self.buf@.len(),
                blen == self.buf@.len(),
                spec_le32(self.buf@.subrange(0, 4)) + 1 == n,
                self.budget == old(self).budget,
                self.buf@ == old(self).buf@ + chunk@,
                sum == declared_words(self.buf@, i as int),
                forall|j: int| 0 <= j < i ==> entry_words(self.buf@, j) <= MAX_SEGMENT_WORDS,
                sum <= (i as u64) * (MAX_SEGMENT_WORDS as u64),
            decreases n - i,
        {
            let w = read_le32(&self.buf, 4 + 4 * i);
            if w > MAX_SEGMENT_WORDS as u32 {
                proof {
                    assert(entry_words(self.buf@, i as int) > MAX_SEGMENT_WORDS);
                    assert(!entries_capped(self.buf@, n as int));
                }
                return Err(Error::TraversalLimitExceeded);
            }
            proof {
                assert((i as u64 + 1) * (MAX_SEGMENT_WORDS as u64) == (i as u64) * (
                MAX_SEGMENT_WORDS as u64) + (MAX_SEGMENT_WORDS as u64)) by (nonlinear_arith);
            }
            sum = sum + (w as u64);
            i = i + 1;
        }
        if sum > self.budget {
            return Err(Error::TraversalLimitExceeded);
        }
        proof {
            assert((n as u64) * (MAX_SEGMENT_WORDS as u64) <= 512u64 * 0x0FFF_FFFFu64)
                by (nonlinear_arith)
                requires
                    n <= 512,
            ;
            assert(sum <= (n as u64) * (MAX_SEGMENT_WORDS as u64));
        }
        Ok((blen as u64) >= (tl as u64) + 8 * sum)
    }

    /// Decode the complete frame that was fed; a frame still missing
    /// bytes, or followed by extra bytes, fails.
    pub fn finish(self) -> (r: Result<Message, Error>)
        ensures
            (match r {
                Ok(m) => m.wf() && spec_decode(self.bytes(), self.spec_budget()) == Ok::<
                    Seq<Seq<u8>>,
                    Error,
                >(m@),
                Err(e) => spec_decode(self.bytes(), self.spec_budget()) == Err::<
                    Seq<Seq<u8>>,
                    Error,
                >(e),
            }),
    {
        decode(self.buf.as_slice(), self.budget)
    }
}

} // verus!
