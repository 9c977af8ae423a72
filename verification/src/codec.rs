//! The segment file format.
//!
//! A segment is a sequence of term blocks in ascending byte-lexicographic
//! term order.  Each block holds `term length (4-byte unsigned) | term bytes
//! | posting count (4-byte unsigned) | postings`; each posting holds
//! `document id (8-byte unsigned) | position count (4-byte unsigned) |
//! positions (4-byte unsigned each)`.  All numbers are little-endian.

use vstd::prelude::*;

use crate::index::EntryModel;
use crate::index::PostingModel;

verus! {

/// The four little-endian bytes of a 32-bit number.
#[verifier::opaque]
pub open spec fn le32(n: u32) -> Seq<u8> {
    seq![
        (n % 256) as u8,
        (n / 256 % 256) as u8,
        (n / 65536 % 256) as u8,
        (n / 16777216 % 256) as u8,
    ]
}

/// The eight little-endian bytes of a 64-bit number.
#[verifier::opaque]
pub open spec fn le64(n: u64) -> Seq<u8> {
    seq![
        (n % 256) as u8,
        (n / 256 % 256) as u8,
        (n / 65536 % 256) as u8,
        (n / 16777216 % 256) as u8,
        (n / 4294967296 % 256) as u8,
        (n / 1099511627776 % 256) as u8,
        (n / 281474976710656 % 256) as u8,
        (n / 72057594037927936 % 256) as u8,
    ]
}

/// The serialized offsets of one posting.
pub open spec fn ser_positions(s: Seq<u32>) -> Seq<u8>
    decreases s.len(),
{
    if s.len() == 0 {
        Seq::empty()
    } else {
        le32(s[0]) + ser_positions(s.skip(1))
    }
}

/// One serialized posting.
pub open spec fn ser_posting(p: PostingModel) -> Seq<u8> {
    le64(p.doc) + le32(p.positions.len() as u32) + ser_positions(p.positions)
}

/// A serialized postings list.
pub open spec fn ser_plist(ps: Seq<PostingModel>) -> Seq<u8>
    decreases ps.len(),
{
    if ps.len() == 0 {
        Seq::empty()
    } else {
        ser_posting(ps[0]) + ser_plist(ps.skip(1))
    }
}

/// One serialized term block.
pub open spec fn ser_entry(e: EntryModel) -> Seq<u8> {
    le32(e.term.len() as u32) + e.term + le32(e.postings.len() as u32) + ser_plist(e.postings)
}

/// A whole serialized index: its term blocks in order.
pub open spec fn ser_index(m: Seq<EntryModel>) -> Seq<u8>
    decreases m.len(),
{
    if m.len() == 0 {
        Seq::empty()
    } else {
        ser_entry(m[0]) + ser_index(m.skip(1))
    }
}

/// The format's counters are 4 bytes wide, so every length must fit them.
pub open spec fn entry_serializable(e: EntryModel) -> bool {
    e.term.len() <= u32::MAX && e.postings.len() <= u32::MAX && (forall|k: int|
        0 <= k < e.postings.len() ==> (#[trigger] e.postings[k]).positions.len() <= u32::MAX)
}

pub open spec fn serializable(m: Seq<EntryModel>) -> bool {
    forall|i: int| 0 <= i < m.len() ==> entry_serializable(#[trigger] m[i])
}

pub proof fn lemma_ser_positions_len(s: Seq<u32>)
    ensures
        ser_positions(s).len() == 4 * s.len(),
    decreases s.len(),
{
    if s.len() > 0 {
        lemma_le32_len(s[0]);
        lemma_ser_positions_len(s.skip(1));
    }
}

#[verifier::rlimit(60)]
pub proof fn lemma_ser_positions_snoc(s: Seq<u32>, k: int)
    requires
        0 <= k < s.len(),
    ensures
        ser_positions(s.take(k + 1)) == ser_positions(s.take(k)) + le32(s[k]),
    decreases k,
{
    let a = s.take(k + 1);
    let b = s.take(k);
    if k == 0 {
        assert(a.len() == 1);
        assert(a[0] == s[0]);
        assert(a.skip(1) =~= Seq::<u32>::empty());
        assert(b =~= Seq::<u32>::empty());
        assert(ser_positions(a) == le32(a[0]) + ser_positions(a.skip(1)));
        assert(ser_positions(a.skip(1)).len() == 0);
        assert(ser_positions(b).len() == 0);
        assert(le32(a[0]) + ser_positions(a.skip(1)) =~= le32(s[0]));
        assert(ser_positions(b) + le32(s[0]) =~= le32(s[0]));
    } else {
        assert(a.skip(1) =~= s.skip(1).take(k));
        assert(b.skip(1) =~= s.skip(1).take(k - 1));
        assert(a[0] == s[0]);
        assert(b[0] == s[0]);
        lemma_ser_positions_snoc(s.skip(1), k - 1);
        assert(s.skip(1)[k - 1] == s[k]);
        assert(ser_positions(a) == le32(s[0]) + ser_positions(s.skip(1).take(k)));
        assert(ser_positions(b) == le32(s[0]) + ser_positions(s.skip(1).take(k - 1)));
        assert(le32(s[0]) + (ser_positions(s.skip(1).take(k - 1)) + le32(s[k])) =~= (le32(s[0])
            + ser_positions(s.skip(1).take(k - 1))) + le32(s[k]));
    }
}

#[verifier::rlimit(60)]
pub proof fn lemma_ser_plist_snoc(ps: Seq<PostingModel>, k: int)
    requires
        0 <= k < ps.len(),
    ensures
        ser_plist(ps.take(k + 1)) == ser_plist(ps.take(k)) + ser_posting(ps[k]),
    decreases k,
{
    let a = ps.take(k + 1);
    let b = ps.take(k);
    if k == 0 {
        assert(a.len() == 1);
        assert(a[0] == ps[0]);
        assert(a.skip(1) =~= Seq::<PostingModel>::empty());
        assert(b =~= Seq::<PostingModel>::empty());
        assert(ser_plist(a) == ser_posting(a[0]) + ser_plist(a.skip(1)));
        assert(ser_plist(a.skip(1)).len() == 0);
        assert(ser_plist(b).len() == 0);
        assert(ser_posting(a[0]) + ser_plist(a.skip(1)) =~= ser_posting(ps[0]));
        assert(ser_plist(b) + ser_posting(ps[0]) =~= ser_posting(ps[0]));
    } else {
        assert(a.skip(1) =~= ps.skip(1).take(k));
        assert(b.skip(1) =~= ps.skip(1).take(k - 1));
        assert(a[0] == ps[0]);
        assert(b[0] == ps[0]);
        lemma_ser_plist_snoc(ps.skip(1), k - 1);
        assert(ps.skip(1)[k - 1] == ps[k]);
        assert(ser_plist(a) == ser_posting(ps[0]) + ser_plist(ps.skip(1).take(k)));
        assert(ser_plist(b) == ser_posting(ps[0]) + ser_plist(ps.skip(1).take(k - 1)));
        assert(ser_posting(ps[0]) + (ser_plist(ps.skip(1).take(k - 1)) + ser_posting(ps[k])) =~= (
        ser_posting(ps[0]) + ser_plist(ps.skip(1).take(k - 1))) + ser_posting(ps[k]));
    }
}

#[verifier::rlimit(60)]
pub proof fn lemma_ser_index_snoc(m: Seq<EntryModel>, k: int)
    requires
        0 <= k < m.len(),
    ensures
        ser_index(m.take(k + 1)) == ser_index(m.take(k)) + ser_entry(m[k]),
    decreases k,
{
    let a = m.take(k + 1);
    let b = m.take(k);
    if k == 0 {
        assert(a.len() == 1);
        assert(a[0] == m[0]);
        assert(a.skip(1) =~= Seq::<EntryModel>::empty());
        assert(b =~= Seq::<EntryModel>::empty());
        assert(ser_index(a) == ser_entry(a[0]) + ser_index(a.skip(1)));
        assert(ser_index(a.skip(1)).len() == 0);
        assert(ser_index(b).len() == 0);
        assert(ser_entry(a[0]) + ser_index(a.skip(1)) =~= ser_entry(m[0]));
        assert(ser_index(b) + ser_entry(m[0]) =~= ser_entry(m[0]));
    } else {
        assert(a.skip(1) =~= m.skip(1).take(k));
        assert(b.skip(1) =~= m.skip(1).take(k - 1));
        assert(a[0] == m[0]);
        assert(b[0] == m[0]);
        lemma_ser_index_snoc(m.skip(1), k - 1);
        assert(m.skip(1)[k - 1] == m[k]);
        assert(ser_index(a) == ser_entry(m[0]) + ser_index(m.skip(1).take(k)));
        assert(ser_index(b) == ser_entry(m[0]) + ser_index(m.skip(1).take(k - 1)));
        assert(ser_entry(m[0]) + (ser_index(m.skip(1).take(k - 1)) + ser_entry(m[k])) =~= (
        ser_entry(m[0]) + ser_index(m.skip(1).take(k - 1))) + ser_entry(m[k]));
    }
}

/// Appends the four little-endian bytes of `x`.
fn push_le32(out: &mut Vec<u8>, x: u32)
    ensures
        final(out)@ == old(out)@ + le32(x),
{
    let ghost base = out@;
    out.push((x % 256) as u8);
    out.push((x / 256 % 256) as u8);
    out.push((x / 65536 % 256) as u8);
    out.push((x / 16777216 % 256) as u8);
    proof {
        reveal(le32);
        assert(out@ =~= base + le32(x));
    }
}

/// Appends the eight little-endian bytes of `x`.
fn push_le64(out: &mut Vec<u8>, x: u64)
    ensures
        final(out)@ == old(out)@ + le64(x),
{
    let ghost base = out@;
    out.push((x % 256) as u8);
    out.push((x / 256 % 256) as u8);
    out.push((x / 65536 % 256) as u8);
    out.push((x / 16777216 % 256) as u8);
    out.push((x / 4294967296 % 256) as u8);
    out.push((x / 1099511627776 % 256) as u8);
    out.push((x / 281474976710656 % 256) as u8);
    out.push((x / 72057594037927936 % 256) as u8);
    proof {
        reveal(le64);
        assert(out@ =~= base + le64(x));
    }
}

/// Appends a byte string.
fn push_bytes(out: &mut Vec<u8>, b: &Vec<u8>)
    ensures
        final(out)@ == old(out)@ + b@,
{
    let ghost base = out@;
    let mut i: usize = 0;
    proof {
        assert(out@ =~= base + b@.take(0));
    }
    while i < b.len()
        invariant
            0 <= i <= b@.len(),
            out@ == base + b@.take(i as int),
        decreases b@.len() - i,
    {
        out.push(b[i]);
        proof {
            assert(base + b@.take(i + 1) =~= (base + b@.take(i as int)).push(b@[i as int]));
        }
        i = i + 1;
    }
    proof {
        assert(b@.take(b@.len() as int) =~= b@);
    }
}

/// `n`, clamped to the largest 64-bit value.
pub open spec fn clamp64(n: int) -> int {
    if n > u64::MAX {
        u64::MAX as int
    } else {
        n
    }
}

proof fn lemma_clamp_add(a: int, b: int)
    requires
        a >= 0,
        b >= 0,
    ensures
        clamp64(clamp64(a) + clamp64(b)) == clamp64(a + b),
{
}

/// `a + b`, clamped to the largest 64-bit value.
fn sat_add_u64(a: u64, b: u64) -> (r: u64)
    ensures
        r == clamp64(a + b),
{
    if a > u64::MAX - b {
        u64::MAX
    } else {
        a + b
    }
}

/// The clamped serialized size of one posting.
pub proof fn lemma_le32_len(n: u32)
    ensures
        le32(n).len() == 4,
{
    reveal(le32);
}

pub proof fn lemma_le64_len(n: u64)
    ensures
        le64(n).len() == 8,
{
    reveal(le64);
}

pub proof fn lemma_ser_posting_len(p: PostingModel)
    ensures
        ser_posting(p).len() == 12 + 4 * p.positions.len(),
{
    lemma_ser_positions_len(p.positions);
    lemma_le64_len(p.doc);
    lemma_le32_len(p.positions.len() as u32);
    assert(ser_posting(p).len() == le64(p.doc).len() + le32(p.positions.len() as u32).len()
        + ser_positions(p.positions).len());
}

#[verifier::rlimit(100)]
fn posting_size(p: &crate::index::Posting) -> (r: u64)
    ensures
        r == clamp64(ser_posting(p.model()).len() as int),
{
    proof {
        lemma_ser_posting_len(p.model());
        assert(p.model().positions == p.positions@);
    }
    let ln = p.positions.len() as u64;
    // 4611686018427387900 is the largest count whose posting still fits
    // 64-bit accounting: 12 + 4 * count <= u64::MAX.
    if ln > 4611686018427387900 {
        u64::MAX
    } else {
        12 + 4 * ln
    }
}

/// The clamped serialized size of one term block.
fn entry_size(e: &crate::index::TermEntry) -> (r: u64)
    ensures
        r == clamp64(ser_entry(e.model()).len() as int),
{
    let ghost em = e.model();
    let mut es: u64 = sat_add_u64(8, e.term.len() as u64);
    let pn = e.postings.len();
    let mut k: usize = 0;
    proof {
        assert(em.postings.take(0) =~= Seq::<PostingModel>::empty());
        assert(ser_plist(em.postings.take(0)).len() == 0);
    }
    while k < pn
        invariant
            0 <= k <= pn,
            pn == e.postings@.len(),
            em == e.model(),
            es == clamp64((8 + em.term.len() + ser_plist(em.postings.take(k as int)).len()) as int),
        decreases pn - k,
    {
        let ghost pm = em.postings[k as int];
        proof {
            assert(pm == e.postings@[k as int].model());
            lemma_ser_plist_snoc(em.postings, k as int);
        }
        let ps = posting_size(&e.postings[k]);
        proof {
            lemma_clamp_add(
                8 + em.term.len() + ser_plist(em.postings.take(k as int)).len() as int,
                ser_posting(pm).len() as int,
            );
        }
        es = sat_add_u64(es, ps);
        k = k + 1;
    }
    proof {
        assert(em.postings.take(pn as int) =~= em.postings);
        lemma_le32_len(em.term.len() as u32);
        lemma_le32_len(em.postings.len() as u32);
        assert(ser_entry(em).len() == 8 + em.term.len() + ser_plist(em.postings).len());
    }
    es
}

impl crate::index::InMemoryIndex {
    /// Serializes the index into the segment format: term blocks in the
    /// index's term order, postings in document order.
    pub fn serialize(&self) -> (r: Vec<u8>)
        requires
            serializable(self.model()),
        ensures
            r@ == ser_index(self.model()),
    {
        let ghost m = self.model();
        let mut out: Vec<u8> = Vec::new();
        proof {
            assert(m.take(0) =~= Seq::<EntryModel>::empty());
            assert(out@ =~= ser_index(m.take(0)));
        }
        let mut i: usize = 0;
        let n = self.entries.len();
        while i < n
            invariant
                0 <= i <= n,
                n == self.entries@.len(),
                m == self.model(),
                serializable(m),
                out@ == ser_index(m.take(i as int)),
            decreases n - i,
        {
            let ghost em = m[i as int];
            proof {
                assert(em == self.entries@[i as int].model());
                assert(entry_serializable(em));
            }
            let e = &self.entries[i];
            let ghost base = out@;
            push_le32(&mut out, e.term.len() as u32);
            push_bytes(&mut out, &e.term);
            push_le32(&mut out, e.postings.len() as u32);
            proof {
                assert(out@ == base + le32(em.term.len() as u32) + em.term + le32(
                    em.postings.len() as u32,
                ));
            }
            let ghost mid = out@;
            let pn = e.postings.len();
            let mut k: usize = 0;
            proof {
                assert(em.postings.take(0) =~= Seq::<PostingModel>::empty());
                assert(mid + ser_plist(em.postings.take(0)) =~= mid);
            }
            while k < pn
                invariant
                    0 <= k <= pn,
                    pn == e.postings@.len(),
                    em == e.model(),
                    entry_serializable(em),
                    out@ == mid + ser_plist(em.postings.take(k as int)),
                decreases pn - k,
            {
                let ghost pm = em.postings[k as int];
                proof {
                    assert(pm == e.postings@[k as int].model());
                }
                let p = &e.postings[k];
                let ghost pre = out@;
                push_le64(&mut out, p.doc_id);
                push_le32(&mut out, p.positions.len() as u32);
                let ghost pre2 = out@;
                let ln = p.positions.len();
                let mut l: usize = 0;
                proof {
                    assert(pm.positions.take(0) =~= Seq::<u32>::empty());
                    assert(pre2 + ser_positions(pm.positions.take(0)) =~= pre2);
                }
                while l < ln
                    invariant
                        0 <= l <= ln,
                        ln == p.positions@.len(),
                        pm == p.model(),
                        out@ == pre2 + ser_positions(pm.positions.take(l as int)),
                    decreases ln - l,
                {
                    push_le32(&mut out, p.positions[l]);
                    proof {
                        lemma_ser_positions_snoc(pm.positions, l as int);
                    }
                    l = l + 1;
                }
                proof {
                    assert(pm.positions.take(ln as int) =~= pm.positions);
                    assert(out@ == pre2 + ser_positions(pm.positions));
                    assert(pre2 == pre + le64(pm.doc) + le32(pm.positions.len() as u32));
                    assert(out@ =~= pre + ser_posting(pm));
                    lemma_ser_plist_snoc(em.postings, k as int);
                    assert(pre + ser_posting(pm) =~= mid + (ser_plist(em.postings.take(k as int))
                        + ser_posting(pm)));
                }
                k = k + 1;
            }
            proof {
                assert(em.postings.take(pn as int) =~= em.postings);
                assert(out@ == mid + ser_plist(em.postings));
                assert(out@ =~= base + ser_entry(em));
                lemma_ser_index_snoc(m, i as int);
                assert(base + ser_entry(em) =~= ser_index(m.take(i as int)) + ser_entry(em));
            }
            i = i + 1;
        }
        proof {
            assert(m.take(n as int) =~= m);
        }
        out
    }

    /// The index's byte-size estimate: the exact length of its serialized
    /// form, clamped to the largest 64-bit value.
    #[verifier::rlimit(100)]
    #[verifier::rlimit(30)]
    pub fn size_estimate(&self) -> (r: u64)
        ensures
            r == clamp64(ser_index(self.model()).len() as int),
    {
        let ghost m = self.model();
        let mut acc: u64 = 0;
        proof {
            assert(m.take(0) =~= Seq::<EntryModel>::empty());
        }
        let mut i: usize = 0;
        let n = self.entries.len();
        while i < n
            invariant
                0 <= i <= n,
                n == self.entries@.len(),
                m == self.model(),
                acc == clamp64(ser_index(m.take(i as int)).len() as int),
            decreases n - i,
        {
            let ghost em = m[i as int];
            proof {
                assert(em == self.entries@[i as int].model());
                lemma_ser_index_snoc(m, i as int);
            }
            let es = entry_size(&self.entries[i]);
            proof {
                lemma_clamp_add(
                    ser_index(m.take(i as int)).len() as int,
                    ser_entry(em).len() as int,
                );
            }
            acc = sat_add_u64(acc, es);
            i = i + 1;
        }
        proof {
            assert(m.take(n as int) =~= m);
        }
        acc
    }

    /// Whether the index has grown past the spill threshold.
    pub fn is_large(&self, threshold: u64) -> (r: bool)
        ensures
            r == (ser_index(self.model()).len() >= threshold),
    {
        let est = self.size_estimate();
        proof {
            assert((est >= threshold) == (ser_index(self.model()).len() >= threshold));
        }
        est >= threshold
    }
}


// ---------------------------------------------------------------------------
// Reading the format back
// ---------------------------------------------------------------------------

/// The value the four little-endian bytes at the front of `s` denote.
pub open spec fn le32_val(s: Seq<u8>) -> int {
    s[0] + 256 * s[1] + 65536 * s[2] + 16777216 * s[3]
}

/// Little-endian digits compose back to their value.
pub proof fn lemma_le32_val(n: u32)
    ensures
        le32_val(le32(n)) == n,
{
    reveal(le32);
    assert(n % 256 + 256 * (n / 256 % 256) + 65536 * (n / 65536 % 256) + 16777216 * (n / 16777216
        % 256) == n) by (bit_vector);
}

/// Four bytes are the little-endian digits of the value they denote.
pub proof fn lemma_le32_of_bytes(b0: u8, b1: u8, b2: u8, b3: u8)
    ensures
        le32(
            (b0 as u32 + 256 * (b1 as u32) + 65536 * (b2 as u32) + 16777216 * (b3 as u32)) as u32,
        ) =~= seq![b0, b1, b2, b3],
{
    reveal(le32);
    let v = (b0 as u32 + 256 * (b1 as u32) + 65536 * (b2 as u32) + 16777216 * (b3 as u32)) as u32;
    assert(v % 256 == b0 && v / 256 % 256 == b1 && v / 65536 % 256 == b2 && v / 16777216 % 256
        == b3) by (bit_vector)
        requires
            v == (b0 as u32 + 256 * (b1 as u32) + 65536 * (b2 as u32) + 16777216 * (b3 as u32))
                as u32,
    ;
}

/// The value the eight little-endian bytes at the front of `s` denote.
pub open spec fn le64_val(s: Seq<u8>) -> int {
    s[0] + 256 * s[1] + 65536 * s[2] + 16777216 * s[3] + 4294967296 * s[4] + 1099511627776 * s[5]
        + 281474976710656 * s[6] + 72057594037927936 * s[7]
}

pub proof fn lemma_le64_val(n: u64)
    ensures
        le64_val(le64(n)) == n,
{
    reveal(le64);
    assert(n % 256 + 256 * (n / 256 % 256) + 65536 * (n / 65536 % 256) + 16777216 * (n / 16777216
        % 256) + 4294967296 * (n / 4294967296 % 256) + 1099511627776 * (n / 1099511627776 % 256)
        + 281474976710656 * (n / 281474976710656 % 256) + 72057594037927936 * (n
        / 72057594037927936 % 256) == n) by (bit_vector);
}

pub proof fn lemma_le64_of_bytes(
    b0: u8,
    b1: u8,
    b2: u8,
    b3: u8,
    b4: u8,
    b5: u8,
    b6: u8,
    b7: u8,
)
    ensures
        le64(
            (b0 as u64 + 256 * (b1 as u64) + 65536 * (b2 as u64) + 16777216 * (b3 as u64)
                + 4294967296 * (b4 as u64) + 1099511627776 * (b5 as u64) + 281474976710656 * (
            b6 as u64) + 72057594037927936 * (b7 as u64)) as u64,
        ) =~= seq![b0, b1, b2, b3, b4, b5, b6, b7],
{
    reveal(le64);
    let v = (b0 as u64 + 256 * (b1 as u64) + 65536 * (b2 as u64) + 16777216 * (b3 as u64)
        + 4294967296 * (b4 as u64) + 1099511627776 * (b5 as u64) + 281474976710656 * (b6 as u64)
        + 72057594037927936 * (b7 as u64)) as u64;
    assert(v % 256 == b0 && v / 256 % 256 == b1 && v / 65536 % 256 == b2 && v / 16777216 % 256
        == b3 && v / 4294967296 % 256 == b4 && v / 1099511627776 % 256 == b5 && v
        / 281474976710656 % 256 == b6 && v / 72057594037927936 % 256 == b7) by (bit_vector)
        requires
            v == (b0 as u64 + 256 * (b1 as u64) + 65536 * (b2 as u64) + 16777216 * (b3 as u64)
                + 4294967296 * (b4 as u64) + 1099511627776 * (b5 as u64) + 281474976710656 * (
            b6 as u64) + 72057594037927936 * (b7 as u64)) as u64,
    ;
}

/// Reads one 32-bit counter.
fn read_u32(bytes: &Vec<u8>, pos: usize) -> (r: Option<(u32, usize)>)
    requires
        pos <= bytes@.len(),
    ensures
        match r {
            Some(t) => t.1 == pos + 4 && t.1 <= bytes@.len() && bytes@.subrange(
                pos as int,
                t.1 as int,
            ) == le32(t.0),
            None => bytes@.len() - pos < 4,
        },
{
    if bytes.len() - pos < 4 {
        return None;
    }
    let b0 = bytes[pos];
    let b1 = bytes[pos + 1];
    let b2 = bytes[pos + 2];
    let b3 = bytes[pos + 3];
    let v = b0 as u32 + 256 * (b1 as u32) + 65536 * (b2 as u32) + 16777216 * (b3 as u32);
    proof {
        lemma_le32_of_bytes(b0, b1, b2, b3);
        assert(bytes@.subrange(pos as int, pos + 4) =~= seq![b0, b1, b2, b3]);
    }
    Some((v, pos + 4))
}

/// Reads one 64-bit document id.
fn read_u64(bytes: &Vec<u8>, pos: usize) -> (r: Option<(u64, usize)>)
    requires
        pos <= bytes@.len(),
    ensures
        match r {
            Some(t) => t.1 == pos + 8 && t.1 <= bytes@.len() && bytes@.subrange(
                pos as int,
                t.1 as int,
            ) == le64(t.0),
            None => bytes@.len() - pos < 8,
        },
{
    if bytes.len() - pos < 8 {
        return None;
    }
    let b0 = bytes[pos];
    let b1 = bytes[pos + 1];
    let b2 = bytes[pos + 2];
    let b3 = bytes[pos + 3];
    let b4 = bytes[pos + 4];
    let b5 = bytes[pos + 5];
    let b6 = bytes[pos + 6];
    let b7 = bytes[pos + 7];
    let v = b0 as u64 + 256 * (b1 as u64) + 65536 * (b2 as u64) + 16777216 * (b3 as u64)
        + 4294967296 * (b4 as u64) + 1099511627776 * (b5 as u64) + 281474976710656 * (b6 as u64)
        + 72057594037927936 * (b7 as u64);
    proof {
        lemma_le64_of_bytes(b0, b1, b2, b3, b4, b5, b6, b7);
        assert(bytes@.subrange(pos as int, pos + 8) =~= seq![b0, b1, b2, b3, b4, b5, b6, b7]);
    }
    Some((v, pos + 8))
}

/// Reads `n` raw bytes.
fn read_bytes(bytes: &Vec<u8>, pos: usize, n: usize) -> (r: Option<(Vec<u8>, usize)>)
    requires
        pos <= bytes@.len(),
    ensures
        match r {
            Some(t) => t.1 == pos + n && t.1 <= bytes@.len() && t.0@ == bytes@.subrange(
                pos as int,
                t.1 as int,
            ),
            None => bytes@.len() - pos < n,
        },
{
    if bytes.len() - pos < n {
        return None;
    }
    let mut out: Vec<u8> = Vec::new();
    let mut i: usize = 0;
    while i < n
        invariant
            0 <= i <= n,
            pos + n <= bytes@.len(),
            bytes@.len() <= usize::MAX,
            out@ == bytes@.subrange(pos as int, pos + i),
        decreases n - i,
    {
        out.push(bytes[pos + i]);
        proof {
            assert(bytes@.subrange(pos as int, pos + i + 1) =~= bytes@.subrange(
                pos as int,
                pos + i,
            ).push(bytes@[pos + i]));
        }
        i = i + 1;
    }
    Some((out, pos + n))
}



/// `a` is an initial segment of `b`.
pub open spec fn is_prefix(a: Seq<u8>, b: Seq<u8>) -> bool {
    a.len() <= b.len() && b.take(a.len() as int) == a
}

pub proof fn lemma_ser_entry_len(e: EntryModel)
    ensures
        ser_entry(e).len() == 8 + e.term.len() + ser_plist(e.postings).len(),
        ser_plist(e.postings).len() >= 12 * e.postings.len(),
{
    lemma_le32_len(e.term.len() as u32);
    lemma_le32_len(e.postings.len() as u32);
    lemma_ser_plist_len_lb(e.postings);
}

pub proof fn lemma_ser_plist_len_lb(ps: Seq<PostingModel>)
    ensures
        ser_plist(ps).len() >= 12 * ps.len(),
    decreases ps.len(),
{
    if ps.len() > 0 {
        lemma_ser_posting_len(ps[0]);
        lemma_ser_plist_len_lb(ps.skip(1));
    }
}


/// A serializable posting whose serialization starts where an already-read
/// document id and counter start must agree with them, and its block fits
/// the buffer.
proof fn lemma_posting_prefix_pins(b: Seq<u8>, pos: int, doc: u64, cnt: u32, pm: PostingModel)
    requires
        0 <= pos,
        pos + 12 <= b.len(),
        b.subrange(pos, pos + 8) == le64(doc),
        b.subrange(pos + 8, pos + 12) == le32(cnt),
        pm.positions.len() <= u32::MAX,
        is_prefix(ser_posting(pm), b.skip(pos)),
    ensures
        pm.doc == doc,
        pm.positions.len() == cnt,
        b.len() - pos >= 12 + 4 * cnt,
{
    lemma_ser_posting_len(pm);
    lemma_le64_len(pm.doc);
    lemma_le64_len(doc);
    lemma_le32_len(pm.positions.len() as u32);
    lemma_le32_len(cnt);
    let sp = ser_posting(pm);
    let rest = b.skip(pos);
    assert(rest.take(sp.len() as int) == sp);
    assert(sp.take(12) =~= le64(pm.doc) + le32(pm.positions.len() as u32));
    assert(rest.take(sp.len() as int).take(12) =~= rest.take(12));
    assert(rest.take(12) =~= b.subrange(pos, pos + 8) + b.subrange(pos + 8, pos + 12));
    lemma_concat_cancel(
        le64(pm.doc),
        le32(pm.positions.len() as u32),
        le64(doc),
        le32(cnt),
    );
    lemma_le64_inj(pm.doc, doc);
    lemma_le32_inj(pm.positions.len() as u32, cnt);
}

/// Two postings lists read from the front of the same bytes agree on their
/// common length, and what follows the shorter one is the longer one's
/// tail.
proof fn lemma_plist_parse_align(
    done: Seq<PostingModel>,
    ps: Seq<PostingModel>,
    b: Seq<u8>,
)
    requires
        forall|k: int| 0 <= k < done.len() ==> (#[trigger] done[k]).positions.len() <= u32::MAX,
        forall|k: int| 0 <= k < ps.len() ==> (#[trigger] ps[k]).positions.len() <= u32::MAX,
        is_prefix(ser_plist(done), b),
        is_prefix(ser_plist(ps), b),
        done.len() <= ps.len(),
    ensures
        ps.take(done.len() as int) == done,
        is_prefix(ser_plist(ps.skip(done.len() as int)), b.skip(ser_plist(done).len() as int)),
    decreases done.len(),
{
    if done.len() == 0 {
        assert(ps.take(0) =~= done);
        assert(ser_plist(done).len() == 0);
        assert(b.skip(0) =~= b);
        assert(ps.skip(0) =~= ps);
    } else {
        assert(ps.len() > 0);
        let d0 = done[0];
        let q0 = ps[0];
        lemma_ser_posting_len(d0);
        lemma_ser_posting_len(q0);
        let ld = ser_plist(done).len() as int;
        let lp = ser_plist(ps).len() as int;
        assert(b =~= b.take(ld) + b.skip(ld));
        assert(b =~= b.take(lp) + b.skip(lp));
        assert(ser_posting(d0) + (ser_plist(done.skip(1)) + b.skip(ld)) =~= b);
        assert(ser_posting(q0) + (ser_plist(ps.skip(1)) + b.skip(lp)) =~= b);
        assert(forall|k: int| 0 <= k < done.skip(1).len() ==> done.skip(1)[k] == done[k + 1]);
        assert(forall|k: int| 0 <= k < ps.skip(1).len() ==> ps.skip(1)[k] == ps[k + 1]);
        lemma_ser_posting_prefix(
            d0,
            q0,
            ser_plist(done.skip(1)) + b.skip(ld),
            ser_plist(ps.skip(1)) + b.skip(lp),
        );
        let l0 = ser_posting(d0).len() as int;
        let b2 = b.skip(l0);
        assert(is_prefix(ser_plist(done.skip(1)), b2)) by {
            assert(b2.take(ser_plist(done.skip(1)).len() as int) =~= ser_plist(done.skip(1))) by {
                assert(b.take(ld) =~= ser_posting(d0) + ser_plist(done.skip(1)));
                assert forall|l: int| 0 <= l < ser_plist(done.skip(1)).len() implies b2.take(
                    ser_plist(done.skip(1)).len() as int,
                )[l] == #[trigger] ser_plist(done.skip(1))[l] by {
                    assert(b2[l] == b[l0 + l]);
                    assert(b[l0 + l] == b.take(ld)[l0 + l]);
                    assert(b.take(ld)[l0 + l] == (ser_posting(d0) + ser_plist(done.skip(1)))[l0
                        + l]);
                }
            }
        }
        assert(is_prefix(ser_plist(ps.skip(1)), b2)) by {
            assert(b2.take(ser_plist(ps.skip(1)).len() as int) =~= ser_plist(ps.skip(1))) by {
                assert(b.take(lp) =~= ser_posting(q0) + ser_plist(ps.skip(1)));
                assert forall|l: int| 0 <= l < ser_plist(ps.skip(1)).len() implies b2.take(
                    ser_plist(ps.skip(1)).len() as int,
                )[l] == #[trigger] ser_plist(ps.skip(1))[l] by {
                    assert(b2[l] == b[l0 + l]);
                    assert(b[l0 + l] == b.take(lp)[l0 + l]);
                    assert(b.take(lp)[l0 + l] == (ser_posting(q0) + ser_plist(ps.skip(1)))[l0
                        + l]);
                }
            }
        }
        lemma_plist_parse_align(done.skip(1), ps.skip(1), b2);
        assert(ps.take(done.len() as int) =~= done) by {
            assert(ps.skip(1).take(done.len() - 1) == done.skip(1));
            assert forall|k: int| 0 <= k < done.len() implies ps.take(done.len() as int)[k]
                == #[trigger] done[k] by {
                if k > 0 {
                    assert(ps.skip(1).take(done.len() - 1)[k - 1] == ps[k]);
                    assert(done.skip(1)[k - 1] == done[k]);
                }
            }
        }
        assert(ps.skip(done.len() as int) =~= ps.skip(1).skip(done.len() - 1));
        assert(b2.skip(ser_plist(done.skip(1)).len() as int) =~= b.skip(ld));
    }
}

/// A serializable entry whose serialization starts where an already-read
/// block starts must agree with its term length, term bytes and posting
/// counter.
proof fn lemma_entry_prefix_pins(b: Seq<u8>, pos: int, tl: u32, e: EntryModel)
    requires
        0 <= pos,
        pos + 4 <= b.len(),
        b.subrange(pos, pos + 4) == le32(tl),
        entry_serializable(e),
        is_prefix(ser_entry(e), b.skip(pos)),
    ensures
        e.term.len() == tl,
        b.len() - pos >= 8 + tl,
{
    lemma_ser_entry_len(e);
    lemma_le32_len(e.term.len() as u32);
    lemma_le32_len(tl);
    let se = ser_entry(e);
    let rest = b.skip(pos);
    assert(rest.take(se.len() as int) == se);
    assert(se.take(4) =~= le32(e.term.len() as u32));
    assert(rest.take(se.len() as int).take(4) =~= rest.take(4));
    assert(rest.take(4) =~= b.subrange(pos, pos + 4));
    assert(le32(e.term.len() as u32) == le32(tl));
    lemma_le32_inj(e.term.len() as u32, tl);
}

/// With the term read as well, the posting counter is pinned too, and the
/// postings bytes of the hypothetical entry lie right after it.
proof fn lemma_entry_prefix_pins_postings(b: Seq<u8>, pos: int, tl: u32, cnt: u32, e: EntryModel)
    requires
        0 <= pos,
        pos + 8 + tl <= b.len(),
        b.subrange(pos, pos + 4) == le32(tl),
        b.subrange(pos + 4 + tl, pos + 8 + tl) == le32(cnt),
        entry_serializable(e),
        is_prefix(ser_entry(e), b.skip(pos)),
    ensures
        e.term.len() == tl,
        e.term == b.subrange(pos + 4, pos + 4 + tl),
        e.postings.len() == cnt,
        is_prefix(ser_plist(e.postings), b.skip(pos + 8 + tl)),
{
    lemma_entry_prefix_pins(b, pos, tl, e);
    lemma_ser_entry_len(e);
    lemma_le32_len(e.term.len() as u32);
    lemma_le32_len(e.postings.len() as u32);
    lemma_le32_len(tl);
    lemma_le32_len(cnt);
    let se = ser_entry(e);
    let rest = b.skip(pos);
    assert(rest.take(se.len() as int) == se);
    let hd = 8 + tl as int;
    assert(se.take(hd) =~= le32(e.term.len() as u32) + e.term + le32(e.postings.len() as u32));
    assert(rest.take(se.len() as int).take(hd) =~= rest.take(hd));
    assert(rest.take(hd) =~= b.subrange(pos, pos + 4) + b.subrange(pos + 4, pos + 4 + tl)
        + b.subrange(pos + 4 + tl, pos + 8 + tl));
    lemma_concat_cancel(
        le32(e.term.len() as u32) + e.term,
        le32(e.postings.len() as u32),
        b.subrange(pos, pos + 4) + b.subrange(pos + 4, pos + 4 + tl),
        b.subrange(pos + 4 + tl, pos + 8 + tl),
    );
    lemma_le32_inj(e.postings.len() as u32, cnt);
    lemma_concat_cancel(
        le32(e.term.len() as u32),
        e.term,
        b.subrange(pos, pos + 4),
        b.subrange(pos + 4, pos + 4 + tl),
    );
    assert(is_prefix(ser_plist(e.postings), b.skip(pos + 8 + tl))) by {
        let tail = b.skip(pos + 8 + tl);
        assert(se.len() - hd == ser_plist(e.postings).len());
        assert(tail.take(ser_plist(e.postings).len() as int) =~= ser_plist(e.postings)) by {
            assert forall|l: int| 0 <= l < ser_plist(e.postings).len() implies tail.take(
                ser_plist(e.postings).len() as int,
            )[l] == #[trigger] ser_plist(e.postings)[l] by {
                assert(tail[l] == b[pos + 8 + tl + l]);
                assert(rest[hd + l] == b[pos + hd + l]);
                assert(rest.take(se.len() as int)[hd + l] == rest[hd + l]);
                assert(se[hd + l] == (se.take(hd) + se.skip(hd))[hd + l]);
                assert(se =~= se.take(hd) + se.skip(hd));
                assert(se.skip(hd) =~= ser_plist(e.postings));
            }
        }
    }
}

/// Reads one posting.
fn parse_posting(bytes: &Vec<u8>, pos: usize) -> (r: Option<(crate::index::Posting, usize)>)
    requires
        pos <= bytes@.len(),
    ensures
        match r {
            Some(t) => pos < t.1 <= bytes@.len() && bytes@.subrange(pos as int, t.1 as int)
                == ser_posting(t.0.model()) && t.0.model().positions.len() <= u32::MAX,
            None => forall|pm: PostingModel|
                pm.positions.len() <= u32::MAX ==> !is_prefix(
                    ser_posting(pm),
                    bytes@.skip(pos as int),
                ),
        },
{
    let (doc, p1) = match read_u64(bytes, pos) {
        Some(t) => t,
        None => {
            proof {
                assert forall|pm: PostingModel| pm.positions.len() <= u32::MAX implies !is_prefix(
                    ser_posting(pm),
                    bytes@.skip(pos as int),
                ) by {
                    lemma_ser_posting_len(pm);
                }
            }
            return None;
        },
    };
    let (cnt, p2) = match read_u32(bytes, p1) {
        Some(t) => t,
        None => {
            proof {
                assert forall|pm: PostingModel| pm.positions.len() <= u32::MAX implies !is_prefix(
                    ser_posting(pm),
                    bytes@.skip(pos as int),
                ) by {
                    lemma_ser_posting_len(pm);
                }
            }
            return None;
        },
    };
    let blen = bytes.len();
    proof {
        assert(blen == bytes@.len());
    }
    let mut positions: Vec<u32> = Vec::new();
    let mut j: u32 = 0;
    let mut cur: usize = p2;
    proof {
        assert(positions@ =~= Seq::<u32>::empty());
        assert(bytes@.subrange(p2 as int, p2 as int) =~= ser_positions(positions@));
    }
    while j < cnt
        invariant
            pos <= bytes@.len(),
            p1 == pos + 8,
            p2 == p1 + 4,
            p2 <= cur <= bytes@.len(),
            bytes@.len() <= usize::MAX,
            0 <= j <= cnt,
            positions@.len() == j as int,
            bytes@.subrange(pos as int, p1 as int) == le64(doc),
            bytes@.subrange(p1 as int, p2 as int) == le32(cnt),
            bytes@.subrange(p2 as int, cur as int) == ser_positions(positions@),
        decreases cnt - j,
    {
        let (v, nx) = match read_u32(bytes, cur) {
            Some(t) => t,
            None => {
                proof {
                    lemma_ser_positions_len(positions@);
                    assert(cur == p2 + 4 * j);
                    assert forall|pm: PostingModel|
                        pm.positions.len() <= u32::MAX implies !is_prefix(
                        ser_posting(pm),
                        bytes@.skip(pos as int),
                    ) by {
                        if is_prefix(ser_posting(pm), bytes@.skip(pos as int)) {
                            lemma_posting_prefix_pins(bytes@, pos as int, doc, cnt, pm);
                            assert(bytes@.len() - pos >= 12 + 4 * cnt);
                            assert(bytes@.len() - cur >= 4);
                        }
                    }
                }
                return None;
            },
        };
        let ghost oldp = positions@;
        positions.push(v);
        proof {
            lemma_ser_positions_snoc(positions@, j as int);
            assert(positions@.take(j as int) =~= oldp);
            assert(positions@.take(j + 1) =~= positions@);
            assert(positions@[j as int] == v);
            assert(bytes@.subrange(p2 as int, nx as int) =~= bytes@.subrange(
                p2 as int,
                cur as int,
            ) + bytes@.subrange(cur as int, nx as int));
        }
        cur = nx;
        j = j + 1;
    }
    let p = crate::index::Posting { doc_id: doc, positions: positions };
    proof {
        assert(p.model().positions.len() == cnt as int);
        assert((p.model().positions.len() as u32) == cnt);
        assert(bytes@.subrange(pos as int, cur as int) =~= bytes@.subrange(pos as int, p1 as int)
            + bytes@.subrange(p1 as int, p2 as int) + bytes@.subrange(p2 as int, cur as int));
        assert(bytes@.subrange(pos as int, cur as int) == ser_posting(p.model()));
    }
    Some((p, cur))
}

/// Reads one term block.

/// A prefix of a prefix is a prefix.
proof fn lemma_prefix_trans(a: Seq<u8>, m: Seq<u8>, c: Seq<u8>)
    requires
        is_prefix(a, m),
        is_prefix(m, c),
    ensures
        is_prefix(a, c),
{
    assert(c.take(a.len() as int) =~= m.take(a.len() as int)) by {
        assert(forall|l: int|
            0 <= l < a.len() ==> c.take(m.len() as int)[l] == #[trigger] c[l]);
    }
}

/// The left side of a concatenation is one of its prefixes.
proof fn lemma_concat_prefix(x: Seq<u8>, y: Seq<u8>)
    ensures
        is_prefix(x, x + y),
{
    assert((x + y).take(x.len() as int) =~= x);
}

fn parse_entry(bytes: &Vec<u8>, pos: usize) -> (r: Option<(crate::index::TermEntry, usize)>)
    requires
        pos <= bytes@.len(),
    ensures
        match r {
            Some(t) => pos < t.1 <= bytes@.len() && bytes@.subrange(pos as int, t.1 as int)
                == ser_entry(t.0.model()) && entry_serializable(t.0.model()),
            None => forall|e: EntryModel|
                entry_serializable(e) ==> !is_prefix(ser_entry(e), bytes@.skip(pos as int)),
        },
{
    let (tl, p1) = match read_u32(bytes, pos) {
        Some(t) => t,
        None => {
            proof {
                assert forall|e: EntryModel| entry_serializable(e) implies !is_prefix(
                    ser_entry(e),
                    bytes@.skip(pos as int),
                ) by {
                    lemma_ser_entry_len(e);
                }
            }
            return None;
        },
    };
    let (term, p2) = match read_bytes(bytes, p1, tl as usize) {
        Some(t) => t,
        None => {
            proof {
                assert forall|e: EntryModel| entry_serializable(e) implies !is_prefix(
                    ser_entry(e),
                    bytes@.skip(pos as int),
                ) by {
                    if is_prefix(ser_entry(e), bytes@.skip(pos as int)) {
                        lemma_entry_prefix_pins(bytes@, pos as int, tl, e);
                    }
                }
            }
            return None;
        },
    };
    let (cnt, p3) = match read_u32(bytes, p2) {
        Some(t) => t,
        None => {
            proof {
                assert forall|e: EntryModel| entry_serializable(e) implies !is_prefix(
                    ser_entry(e),
                    bytes@.skip(pos as int),
                ) by {
                    if is_prefix(ser_entry(e), bytes@.skip(pos as int)) {
                        lemma_entry_prefix_pins(bytes@, pos as int, tl, e);
                    }
                }
            }
            return None;
        },
    };
    let blen = bytes.len();
    proof {
        assert(blen == bytes@.len());
    }
    let mut postings: Vec<crate::index::Posting> = Vec::new();
    let mut j: u32 = 0;
    let mut cur: usize = p3;
    proof {
        assert(crate::index::pmodels(postings@) =~= Seq::<PostingModel>::empty());
        assert(bytes@.subrange(p3 as int, p3 as int) =~= ser_plist(
            crate::index::pmodels(postings@),
        ));
    }
    while j < cnt
        invariant
            pos <= bytes@.len(),
            p1 == pos + 4,
            p2 == p1 + tl as int,
            p3 == p2 + 4,
            term@ == bytes@.subrange(p1 as int, p2 as int),
            term@.len() == tl as int,
            p3 <= cur <= bytes@.len(),
            bytes@.len() <= usize::MAX,
            0 <= j <= cnt,
            postings@.len() == j as int,
            bytes@.subrange(pos as int, p1 as int) == le32(tl),
            bytes@.subrange(p2 as int, p3 as int) == le32(cnt),
            bytes@.subrange(p3 as int, cur as int) == ser_plist(crate::index::pmodels(postings@)),
            forall|k: int|
                0 <= k < postings@.len() ==> (#[trigger] crate::index::pmodels(
                    postings@,
                )[k]).positions.len() <= u32::MAX,
        decreases cnt - j,
    {
        let (p, nx) = match parse_posting(bytes, cur) {
            Some(t) => t,
            None => {
                proof {
                    let done = crate::index::pmodels(postings@);
                    assert forall|e: EntryModel| entry_serializable(e) implies !is_prefix(
                        ser_entry(e),
                        bytes@.skip(pos as int),
                    ) by {
                        if is_prefix(ser_entry(e), bytes@.skip(pos as int)) {
                            lemma_entry_prefix_pins_postings(bytes@, pos as int, tl, cnt, e);
                            let b = bytes@.skip(p3 as int);
                            assert(is_prefix(ser_plist(done), b)) by {
                                assert(b.take(ser_plist(done).len() as int) =~= bytes@.subrange(
                                    p3 as int,
                                    cur as int,
                                ));
                            }
                            lemma_plist_parse_align(done, e.postings, b);
                            let q = e.postings[j as int];
                            assert(e.postings.skip(j as int)[0] == q);
                            assert(ser_plist(e.postings.skip(j as int)) == ser_posting(q)
                                + ser_plist(e.postings.skip(j as int).skip(1)));
                            lemma_concat_prefix(
                                ser_posting(q),
                                ser_plist(e.postings.skip(j as int).skip(1)),
                            );
                            lemma_prefix_trans(
                                ser_posting(q),
                                ser_plist(e.postings.skip(j as int)),
                                b.skip(ser_plist(done).len() as int),
                            );
                            assert(b.skip(ser_plist(done).len() as int) =~= bytes@.skip(
                                cur as int,
                            ));
                            assert(q.positions.len() <= u32::MAX);
                            assert(!is_prefix(ser_posting(q), bytes@.skip(cur as int)));
                        }
                    }
                }
                return None;
            },
        };
        let ghost oldp = crate::index::pmodels(postings@);
        let ghost pm = p.model();
        postings.push(p);
        proof {
            assert(crate::index::pmodels(postings@) =~= oldp.push(pm));
            lemma_ser_plist_snoc(crate::index::pmodels(postings@), j as int);
            assert(crate::index::pmodels(postings@).take(j as int) =~= oldp);
            assert(crate::index::pmodels(postings@).take(j + 1) =~= crate::index::pmodels(
                postings@,
            ));
            assert(crate::index::pmodels(postings@)[j as int] == pm);
            assert(bytes@.subrange(p3 as int, nx as int) =~= bytes@.subrange(
                p3 as int,
                cur as int,
            ) + bytes@.subrange(cur as int, nx as int));
        }
        cur = nx;
        j = j + 1;
    }
    let e = crate::index::TermEntry { term: term, postings: postings };
    proof {
        assert(e.model().term == term@);
        assert(e.model().postings.len() == cnt as int);
        assert((e.model().term.len() as u32) == tl);
        assert((e.model().postings.len() as u32) == cnt);
        assert(entry_serializable(e.model()));
        assert(bytes@.subrange(pos as int, cur as int) =~= bytes@.subrange(pos as int, p1 as int)
            + bytes@.subrange(p1 as int, p2 as int) + bytes@.subrange(p2 as int, p3 as int)
            + bytes@.subrange(p3 as int, cur as int));
        lemma_le32_len(tl);
        assert(bytes@.subrange(pos as int, cur as int) == ser_entry(e.model()));
    }
    Some((e, cur))
}



/// A non-empty index serializes to at least one 8-byte block header.
proof fn lemma_ser_index_nonempty(m: Seq<EntryModel>)
    requires
        m.len() > 0,
    ensures
        ser_index(m).len() >= 8,
{
    lemma_ser_entry_len(m[0]);
}

/// Two indexes read from the front of the same bytes agree on their common
/// length, and what follows the shorter one is the longer one's tail.
proof fn lemma_index_parse_align(done: Seq<EntryModel>, w: Seq<EntryModel>, b: Seq<u8>)
    requires
        serializable(done),
        serializable(w),
        is_prefix(ser_index(done), b),
        is_prefix(ser_index(w), b),
        done.len() <= w.len(),
    ensures
        w.take(done.len() as int) == done,
        is_prefix(ser_index(w.skip(done.len() as int)), b.skip(ser_index(done).len() as int)),
    decreases done.len(),
{
    if done.len() == 0 {
        assert(w.take(0) =~= done);
        assert(ser_index(done).len() == 0);
        assert(b.skip(0) =~= b);
        assert(w.skip(0) =~= w);
    } else {
        assert(w.len() > 0);
        let d0 = done[0];
        let q0 = w[0];
        lemma_ser_entry_len(d0);
        lemma_ser_entry_len(q0);
        let ld = ser_index(done).len() as int;
        let lw = ser_index(w).len() as int;
        assert(b =~= b.take(ld) + b.skip(ld));
        assert(b =~= b.take(lw) + b.skip(lw));
        assert(ser_entry(d0) + (ser_index(done.skip(1)) + b.skip(ld)) =~= b);
        assert(ser_entry(q0) + (ser_index(w.skip(1)) + b.skip(lw)) =~= b);
        assert(forall|k: int| 0 <= k < done.skip(1).len() ==> done.skip(1)[k] == done[k + 1]);
        assert(forall|k: int| 0 <= k < w.skip(1).len() ==> w.skip(1)[k] == w[k + 1]);
        lemma_ser_entry_prefix(
            d0,
            q0,
            ser_index(done.skip(1)) + b.skip(ld),
            ser_index(w.skip(1)) + b.skip(lw),
        );
        let l0 = ser_entry(d0).len() as int;
        let b2 = b.skip(l0);
        assert(is_prefix(ser_index(done.skip(1)), b2)) by {
            assert(b2.take(ser_index(done.skip(1)).len() as int) =~= ser_index(done.skip(1))) by {
                assert(b.take(ld) =~= ser_entry(d0) + ser_index(done.skip(1)));
                assert forall|l: int| 0 <= l < ser_index(done.skip(1)).len() implies b2.take(
                    ser_index(done.skip(1)).len() as int,
                )[l] == #[trigger] ser_index(done.skip(1))[l] by {
                    assert(b2[l] == b[l0 + l]);
                    assert(b[l0 + l] == b.take(ld)[l0 + l]);
                    assert(b.take(ld)[l0 + l] == (ser_entry(d0) + ser_index(done.skip(1)))[l0
                        + l]);
                }
            }
        }
        assert(is_prefix(ser_index(w.skip(1)), b2)) by {
            assert(b2.take(ser_index(w.skip(1)).len() as int) =~= ser_index(w.skip(1))) by {
                assert(b.take(lw) =~= ser_entry(q0) + ser_index(w.skip(1)));
                assert forall|l: int| 0 <= l < ser_index(w.skip(1)).len() implies b2.take(
                    ser_index(w.skip(1)).len() as int,
                )[l] == #[trigger] ser_index(w.skip(1))[l] by {
                    assert(b2[l] == b[l0 + l]);
                    assert(b[l0 + l] == b.take(lw)[l0 + l]);
                    assert(b.take(lw)[l0 + l] == (ser_entry(q0) + ser_index(w.skip(1)))[l0 + l]);
                }
            }
        }
        lemma_index_parse_align(done.skip(1), w.skip(1), b2);
        assert(w.take(done.len() as int) =~= done) by {
            assert(w.skip(1).take(done.len() - 1) == done.skip(1));
            assert forall|k: int| 0 <= k < done.len() implies w.take(done.len() as int)[k]
                == #[trigger] done[k] by {
                if k > 0 {
                    assert(w.skip(1).take(done.len() - 1)[k - 1] == w[k]);
                    assert(done.skip(1)[k - 1] == done[k]);
                }
            }
        }
        assert(w.skip(done.len() as int) =~= w.skip(1).skip(done.len() - 1));
        assert(b2.skip(ser_index(done.skip(1)).len() as int) =~= b.skip(ld));
    }
}

/// Pairwise term order follows from adjacent order.
proof fn lemma_terms_sorted_gap(m: Seq<EntryModel>, i: int, j: int)
    requires
        forall|l: int|
            0 <= l < m.len() - 1 ==> crate::order::lex_lt(
                (#[trigger] m[l]).term,
                m[l + 1].term,
            ),
        0 <= i < j < m.len(),
    ensures
        crate::order::lex_lt(m[i].term, m[j].term),
    decreases j - i,
{
    if j == i + 1 {
    } else {
        lemma_terms_sorted_gap(m, i, j - 1);
        crate::order::lemma_lex_trans(m[i].term, m[j - 1].term, m[j].term);
    }
}

/// Pairwise document order follows from adjacent order.
proof fn lemma_docs_sorted_gap(ps: Seq<PostingModel>, i: int, j: int)
    requires
        forall|l: int| 0 <= l < ps.len() - 1 ==> (#[trigger] ps[l]).doc < ps[l + 1].doc,
        0 <= i < j < ps.len(),
    ensures
        ps[i].doc < ps[j].doc,
    decreases j - i,
{
    if j > i + 1 {
        lemma_docs_sorted_gap(ps, i, j - 1);
    }
}

/// Pairwise offset order follows from adjacent order.
proof fn lemma_positions_sorted_gap(s: Seq<u32>, i: int, j: int)
    requires
        forall|l: int| 0 <= l < s.len() - 1 ==> (#[trigger] s[l]) < s[l + 1],
        0 <= i < j < s.len(),
    ensures
        s[i] < s[j],
    decreases j - i,
{
    if j > i + 1 {
        lemma_positions_sorted_gap(s, i, j - 1);
    }
}

/// Checks the sort and structure invariants of a parsed index.
fn check_wf(ix: &crate::index::InMemoryIndex) -> (r: bool)
    ensures
        r == crate::index::index_wf(ix.model()),
{
    let ghost m = ix.model();
    let n = ix.entries.len();
    let mut i: usize = 0;
    while i < n
        invariant
            0 <= i <= n,
            n == ix.entries@.len(),
            m == ix.model(),
            forall|l: int| 0 <= l < i ==> crate::index::entry_wf(#[trigger] m[l]),
            forall|l: int|
                0 <= l < i - 1 ==> crate::order::lex_lt((#[trigger] m[l]).term, m[l + 1].term),
        decreases n - i,
    {
        proof {
            assert(m[i as int] == ix.entries@[i as int].model());
        }
        let e = &ix.entries[i];
        if e.term.len() == 0 {
            proof {
                assert(!crate::index::entry_wf(m[i as int]));
            }
            return false;
        }
        if e.postings.len() == 0 {
            proof {
                assert(!crate::index::entry_wf(m[i as int]));
            }
            return false;
        }
        let ghost em = m[i as int];
        let pn = e.postings.len();
        let mut k: usize = 0;
        while k < pn
            invariant
                0 <= k <= pn,
                pn == e.postings@.len(),
                em == e.model(),
                m == ix.model(),
                0 <= i < m.len(),
                em == m[i as int],
                forall|l: int| 0 <= l < k ==> crate::index::posting_wf(#[trigger] em.postings[l]),
                forall|l: int|
                    0 <= l < k - 1 ==> (#[trigger] em.postings[l]).doc < em.postings[l + 1].doc,
            decreases pn - k,
        {
            proof {
                assert(em.postings[k as int] == e.postings@[k as int].model());
            }
            let p = &e.postings[k];
            let ln = p.positions.len();
            if ln == 0 {
                proof {
                    assert(!crate::index::index_wf(m)) by {
                        if crate::index::index_wf(m) {
                            assert(crate::index::entry_wf(em));
                            assert(crate::index::posting_wf(em.postings[k as int]));
                        }
                    }
                }
                return false;
            }
            let mut l: usize = 1;
            while l < ln
                invariant
                    1 <= l <= ln,
                    ln == p.positions@.len(),
                    m == ix.model(),
                    0 <= i < m.len(),
                    em == m[i as int],
                    0 <= k < em.postings.len(),
                    em.postings[k as int].positions == p.positions@,
                    forall|q: int| 0 <= q < l - 1 ==> (#[trigger] p.positions@[q]) < p.positions@[q
                        + 1],
                decreases ln - l,
            {
                if p.positions[l - 1] >= p.positions[l] {
                    proof {
                        assert(!crate::index::index_wf(m)) by {
                            if crate::index::index_wf(m) {
                                assert(crate::index::entry_wf(em));
                                assert(crate::index::posting_wf(em.postings[k as int]));
                                assert(em.postings[k as int].positions[l - 1]
                                    < em.postings[k as int].positions[l as int]);
                            }
                        }
                    }
                    return false;
                }
                l = l + 1;
            }
            proof {
                assert(em.postings[k as int].positions == p.positions@);
                assert forall|q1: int, q2: int|
                    0 <= q1 < q2 < p.positions@.len() implies p.positions@[q1]
                    < p.positions@[q2] by {
                    lemma_positions_sorted_gap(p.positions@, q1, q2);
                }
                assert(crate::index::posting_wf(em.postings[k as int]));
            }
            if k > 0 {
                if e.postings[k - 1].doc_id >= p.doc_id {
                    proof {
                        assert(em.postings[k - 1] == e.postings@[k - 1].model());
                        assert(!crate::index::index_wf(m)) by {
                            if crate::index::index_wf(m) {
                                assert(crate::index::entry_wf(em));
                                assert(em.postings[k - 1].doc < em.postings[k as int].doc);
                            }
                        }
                    }
                    return false;
                }
                proof {
                    assert(em.postings[k - 1] == e.postings@[k - 1].model());
                }
            }
            k = k + 1;
        }
        proof {
            assert forall|q1: int, q2: int|
                0 <= q1 < q2 < em.postings.len() implies (#[trigger] em.postings[q1]).doc
                < (#[trigger] em.postings[q2]).doc by {
                lemma_docs_sorted_gap(em.postings, q1, q2);
            }
            assert(crate::index::plist_wf(em.postings));
            assert(crate::index::entry_wf(em));
        }
        if i > 0 {
            let cmp = crate::order::lex_cmp(&ix.entries[i - 1].term, &e.term);
            if !(cmp == crate::order::TermCmp::Lt) {
                proof {
                    assert(m[i - 1] == ix.entries@[i - 1].model());
                    crate::order::lemma_lex_trichotomy(m[i - 1].term, m[i as int].term);
                    assert(!crate::index::index_wf(m)) by {
                        if crate::index::index_wf(m) {
                            assert(crate::order::lex_lt(m[i - 1].term, m[i as int].term));
                        }
                    }
                }
                return false;
            }
            proof {
                assert(m[i - 1] == ix.entries@[i - 1].model());
                assert(crate::order::lex_lt(m[i - 1].term, m[i as int].term));
            }
        }
        i = i + 1;
    }
    proof {
        assert forall|q1: int, q2: int|
            0 <= q1 < q2 < m.len() implies crate::order::lex_lt(
            (#[trigger] m[q1]).term,
            (#[trigger] m[q2]).term,
        ) by {
            lemma_terms_sorted_gap(m, q1, q2);
        }
    }
    true
}

impl crate::index::InMemoryIndex {
    /// Reads an index back from the segment format.  A well-formed result
    /// is returned only when the bytes are exactly the serialization of a
    /// well-formed index; any structural or sort-order violation is a
    /// [`crate::IndexError::Format`] error.
    pub fn deserialize(bytes: &Vec<u8>) -> (r: Result<
        crate::index::InMemoryIndex,
        crate::IndexError,
    >)
        ensures
            match r {
                Ok(ix) => ix.wf() && serializable(ix.model()) && ser_index(ix.model()) == bytes@,
                Err(e) => e == crate::IndexError::Format && (forall|w: Seq<EntryModel>|
                    !(crate::index::index_wf(w) && serializable(w) && ser_index(w) == bytes@)),
            },
    {
        let blen = bytes.len();
        let mut entries: Vec<crate::index::TermEntry> = Vec::new();
        let mut pos: usize = 0;
        proof {
            assert(crate::index::emodels(entries@) =~= Seq::<EntryModel>::empty());
            assert(bytes@.subrange(0, 0) =~= ser_index(crate::index::emodels(entries@)));
        }
        while pos < blen
            invariant
                0 <= pos <= blen,
                blen == bytes@.len(),
                bytes@.subrange(0, pos as int) == ser_index(crate::index::emodels(entries@)),
                serializable(crate::index::emodels(entries@)),
            decreases blen - pos,
        {
            let (e, nx) = match parse_entry(bytes, pos) {
                Some(t) => t,
                None => {
                    proof {
                        let done = crate::index::emodels(entries@);
                        assert(ser_index(done).len() == pos);
                        assert(is_prefix(ser_index(done), bytes@)) by {
                            assert(bytes@.take(pos as int) =~= bytes@.subrange(0, pos as int));
                        }
                        assert forall|w: Seq<EntryModel>|
                            !(crate::index::index_wf(w) && serializable(w) && ser_index(w)
                                == bytes@) by {
                            if crate::index::index_wf(w) && serializable(w) && ser_index(w)
                                == bytes@ {
                                assert(is_prefix(ser_index(w), bytes@)) by {
                                    assert(bytes@.take(ser_index(w).len() as int) =~= bytes@);
                                }
                                if w.len() <= done.len() {
                                    lemma_index_parse_align(w, done, bytes@);
                                    let suf = done.skip(w.len() as int);
                                    assert(bytes@.skip(ser_index(w).len() as int).len() == 0);
                                    if suf.len() > 0 {
                                        lemma_ser_index_nonempty(suf);
                                    }
                                    assert(suf.len() == 0);
                                    assert(done =~= done.take(w.len() as int) + suf);
                                    assert(done =~= w);
                                    assert(pos == blen);
                                } else {
                                    lemma_index_parse_align(done, w, bytes@);
                                    let suf = w.skip(done.len() as int);
                                    assert(suf.len() > 0);
                                    assert(ser_index(suf) == ser_entry(suf[0]) + ser_index(
                                        suf.skip(1),
                                    ));
                                    lemma_concat_prefix(ser_entry(suf[0]), ser_index(suf.skip(1)));
                                    lemma_prefix_trans(
                                        ser_entry(suf[0]),
                                        ser_index(suf),
                                        bytes@.skip(pos as int),
                                    );
                                    assert(suf[0] == w[done.len() as int]);
                                    assert(entry_serializable(suf[0]));
                                    assert(!is_prefix(ser_entry(suf[0]), bytes@.skip(pos as int)));
                                }
                            }
                        }
                    }
                    return Err(crate::IndexError::Format);
                },
            };
            let ghost olde = crate::index::emodels(entries@);
            let ghost emm = e.model();
            let ghost cnt = entries@.len() as int;
            entries.push(e);
            proof {
                assert(crate::index::emodels(entries@) =~= olde.push(emm));
                lemma_ser_index_snoc(crate::index::emodels(entries@), cnt);
                assert(crate::index::emodels(entries@).take(cnt) =~= olde);
                assert(crate::index::emodels(entries@).take(cnt + 1) =~= crate::index::emodels(
                    entries@,
                ));
                assert(crate::index::emodels(entries@)[cnt] == emm);
                assert(bytes@.subrange(0, nx as int) =~= bytes@.subrange(0, pos as int)
                    + bytes@.subrange(pos as int, nx as int));
                assert forall|l: int|
                    0 <= l < crate::index::emodels(entries@).len() implies entry_serializable(
                    #[trigger] crate::index::emodels(entries@)[l],
                ) by {
                    if l < cnt {
                        assert(crate::index::emodels(entries@)[l] == olde[l]);
                    }
                }
            }
            pos = nx;
        }
        let ix = crate::index::InMemoryIndex { entries };
        proof {
            assert(bytes@.subrange(0, blen as int) =~= bytes@);
        }
        if check_wf(&ix) {
            Ok(ix)
        } else {
            proof {
                let done = ix.model();
                assert(ser_index(done) == bytes@);
                assert forall|w: Seq<EntryModel>|
                    !(crate::index::index_wf(w) && serializable(w) && ser_index(w)
                        == bytes@) by {
                    if crate::index::index_wf(w) && serializable(w) && ser_index(w) == bytes@ {
                        lemma_serialization_round_trip(done, w);
                        assert(crate::index::index_wf(done));
                    }
                }
            }
            Err(crate::IndexError::Format)
        }
    }
}


// ---------------------------------------------------------------------------
// Serialization is lossless
// ---------------------------------------------------------------------------

/// Splitting equal byte strings at the same point gives equal parts.
proof fn lemma_concat_cancel(a1: Seq<u8>, b1: Seq<u8>, a2: Seq<u8>, b2: Seq<u8>)
    requires
        a1.len() == a2.len(),
        a1 + b1 == a2 + b2,
    ensures
        a1 == a2,
        b1 == b2,
{
    assert(a1 =~= a2) by {
        assert forall|i: int| 0 <= i < a1.len() implies a1[i] == a2[i] by {
            assert((a1 + b1)[i] == a1[i]);
            assert((a2 + b2)[i] == a2[i]);
        }
    }
    assert((a1 + b1).len() == a1.len() + b1.len());
    assert((a2 + b2).len() == a2.len() + b2.len());
    assert((a1 + b1).len() == (a2 + b2).len());
    assert(b1.len() == b2.len());
    assert(b1 =~= b2) by {
        assert forall|i: int| 0 <= i < b1.len() implies b1[i] == b2[i] by {
            assert((a1 + b1)[a1.len() + i] == b1[i]);
            assert((a2 + b2)[a2.len() + i] == b2[i]);
        }
    }
}

proof fn lemma_le32_inj(x: u32, y: u32)
    requires
        le32(x) == le32(y),
    ensures
        x == y,
{
    lemma_le32_val(x);
    lemma_le32_val(y);
}

proof fn lemma_le64_inj(x: u64, y: u64)
    requires
        le64(x) == le64(y),
    ensures
        x == y,
{
    lemma_le64_val(x);
    lemma_le64_val(y);
}

proof fn lemma_ser_positions_prefix(s1: Seq<u32>, s2: Seq<u32>, r1: Seq<u8>, r2: Seq<u8>)
    requires
        s1.len() == s2.len(),
        ser_positions(s1) + r1 == ser_positions(s2) + r2,
    ensures
        s1 == s2,
        r1 == r2,
    decreases s1.len(),
{
    if s1.len() == 0 {
        assert(s1 =~= s2);
        assert(ser_positions(s1) + r1 =~= r1);
        assert(ser_positions(s2) + r2 =~= r2);
    } else {
        lemma_le32_len(s1[0]);
        lemma_le32_len(s2[0]);
        assert(le32(s1[0]) + (ser_positions(s1.skip(1)) + r1) =~= ser_positions(s1) + r1);
        assert(le32(s2[0]) + (ser_positions(s2.skip(1)) + r2) =~= ser_positions(s2) + r2);
        lemma_concat_cancel(
            le32(s1[0]),
            ser_positions(s1.skip(1)) + r1,
            le32(s2[0]),
            ser_positions(s2.skip(1)) + r2,
        );
        lemma_le32_inj(s1[0], s2[0]);
        lemma_ser_positions_prefix(s1.skip(1), s2.skip(1), r1, r2);
        assert(s1 =~= s2) by {
            assert forall|i: int| 0 <= i < s1.len() implies s1[i] == s2[i] by {
                if i > 0 {
                    assert(s1.skip(1)[i - 1] == s1[i]);
                    assert(s2.skip(1)[i - 1] == s2[i]);
                }
            }
        }
    }
}

proof fn lemma_ser_posting_prefix(p1: PostingModel, p2: PostingModel, r1: Seq<u8>, r2: Seq<u8>)
    requires
        p1.positions.len() <= u32::MAX,
        p2.positions.len() <= u32::MAX,
        ser_posting(p1) + r1 == ser_posting(p2) + r2,
    ensures
        p1 == p2,
        r1 == r2,
{
    lemma_le64_len(p1.doc);
    lemma_le64_len(p2.doc);
    lemma_le32_len(p1.positions.len() as u32);
    lemma_le32_len(p2.positions.len() as u32);
    assert(le64(p1.doc) + (le32(p1.positions.len() as u32) + (ser_positions(p1.positions) + r1))
        =~= ser_posting(p1) + r1);
    assert(le64(p2.doc) + (le32(p2.positions.len() as u32) + (ser_positions(p2.positions) + r2))
        =~= ser_posting(p2) + r2);
    lemma_concat_cancel(
        le64(p1.doc),
        le32(p1.positions.len() as u32) + (ser_positions(p1.positions) + r1),
        le64(p2.doc),
        le32(p2.positions.len() as u32) + (ser_positions(p2.positions) + r2),
    );
    lemma_le64_inj(p1.doc, p2.doc);
    lemma_concat_cancel(
        le32(p1.positions.len() as u32),
        ser_positions(p1.positions) + r1,
        le32(p2.positions.len() as u32),
        ser_positions(p2.positions) + r2,
    );
    lemma_le32_inj(p1.positions.len() as u32, p2.positions.len() as u32);
    assert(p1.positions.len() == p2.positions.len());
    lemma_ser_positions_prefix(p1.positions, p2.positions, r1, r2);
}

proof fn lemma_ser_plist_prefix(
    ps1: Seq<PostingModel>,
    ps2: Seq<PostingModel>,
    r1: Seq<u8>,
    r2: Seq<u8>,
)
    requires
        ps1.len() == ps2.len(),
        forall|k: int| 0 <= k < ps1.len() ==> (#[trigger] ps1[k]).positions.len() <= u32::MAX,
        forall|k: int| 0 <= k < ps2.len() ==> (#[trigger] ps2[k]).positions.len() <= u32::MAX,
        ser_plist(ps1) + r1 == ser_plist(ps2) + r2,
    ensures
        ps1 == ps2,
        r1 == r2,
    decreases ps1.len(),
{
    if ps1.len() == 0 {
        assert(ps1 =~= ps2);
        assert(ser_plist(ps1) + r1 =~= r1);
        assert(ser_plist(ps2) + r2 =~= r2);
    } else {
        assert(ser_posting(ps1[0]) + (ser_plist(ps1.skip(1)) + r1) =~= ser_plist(ps1) + r1);
        assert(ser_posting(ps2[0]) + (ser_plist(ps2.skip(1)) + r2) =~= ser_plist(ps2) + r2);
        lemma_ser_posting_prefix(
            ps1[0],
            ps2[0],
            ser_plist(ps1.skip(1)) + r1,
            ser_plist(ps2.skip(1)) + r2,
        );
        assert(forall|k: int| 0 <= k < ps1.skip(1).len() ==> ps1.skip(1)[k] == ps1[k + 1]);
        assert(forall|k: int| 0 <= k < ps2.skip(1).len() ==> ps2.skip(1)[k] == ps2[k + 1]);
        lemma_ser_plist_prefix(ps1.skip(1), ps2.skip(1), r1, r2);
        assert(ps1 =~= ps2) by {
            assert forall|i: int| 0 <= i < ps1.len() implies ps1[i] == ps2[i] by {
                if i > 0 {
                    assert(ps1.skip(1)[i - 1] == ps1[i]);
                    assert(ps2.skip(1)[i - 1] == ps2[i]);
                }
            }
        }
    }
}

proof fn lemma_ser_entry_prefix(e1: EntryModel, e2: EntryModel, r1: Seq<u8>, r2: Seq<u8>)
    requires
        entry_serializable(e1),
        entry_serializable(e2),
        ser_entry(e1) + r1 == ser_entry(e2) + r2,
    ensures
        e1 == e2,
        r1 == r2,
{
    lemma_le32_len(e1.term.len() as u32);
    lemma_le32_len(e2.term.len() as u32);
    lemma_le32_len(e1.postings.len() as u32);
    lemma_le32_len(e2.postings.len() as u32);
    assert(le32(e1.term.len() as u32) + (e1.term + (le32(e1.postings.len() as u32) + (ser_plist(
        e1.postings,
    ) + r1))) =~= ser_entry(e1) + r1);
    assert(le32(e2.term.len() as u32) + (e2.term + (le32(e2.postings.len() as u32) + (ser_plist(
        e2.postings,
    ) + r2))) =~= ser_entry(e2) + r2);
    lemma_concat_cancel(
        le32(e1.term.len() as u32),
        e1.term + (le32(e1.postings.len() as u32) + (ser_plist(e1.postings) + r1)),
        le32(e2.term.len() as u32),
        e2.term + (le32(e2.postings.len() as u32) + (ser_plist(e2.postings) + r2)),
    );
    lemma_le32_inj(e1.term.len() as u32, e2.term.len() as u32);
    assert(e1.term.len() == e2.term.len());
    lemma_concat_cancel(
        e1.term,
        le32(e1.postings.len() as u32) + (ser_plist(e1.postings) + r1),
        e2.term,
        le32(e2.postings.len() as u32) + (ser_plist(e2.postings) + r2),
    );
    lemma_concat_cancel(
        le32(e1.postings.len() as u32),
        ser_plist(e1.postings) + r1,
        le32(e2.postings.len() as u32),
        ser_plist(e2.postings) + r2,
    );
    lemma_le32_inj(e1.postings.len() as u32, e2.postings.len() as u32);
    assert(e1.postings.len() == e2.postings.len());
    lemma_ser_plist_prefix(e1.postings, e2.postings, r1, r2);
}

/// Serialization is lossless: two serializable indexes with the same
/// serialized bytes hold identical contents.  Together with the contract of
/// [`crate::index::InMemoryIndex::deserialize`], whose successful result
/// always serializes back to its input, this is the round-trip law: reading
/// a serialized index back yields exactly the index that was written — the
/// empty index included.
pub proof fn lemma_serialization_round_trip(m1: Seq<EntryModel>, m2: Seq<EntryModel>)
    requires
        serializable(m1),
        serializable(m2),
        ser_index(m1) == ser_index(m2),
    ensures
        m1 == m2,
    decreases m1.len(),
{
    if m1.len() == 0 || m2.len() == 0 {
        if m1.len() != m2.len() {
            // A non-empty index serializes to at least one block of at
            // least 8 bytes, an empty one to nothing.
            let ne = if m1.len() > 0 {
                m1
            } else {
                m2
            };
            lemma_le32_len(ne[0].term.len() as u32);
            lemma_le32_len(ne[0].postings.len() as u32);
            assert(ser_entry(ne[0]).len() >= 8);
            assert(ser_index(ne).len() >= 8);
            assert(false);
        }
        assert(m1 =~= m2);
    } else {
        assert(ser_entry(m1[0]) + ser_index(m1.skip(1)) == ser_index(m1));
        assert(ser_entry(m2[0]) + ser_index(m2.skip(1)) == ser_index(m2));
        assert(forall|i: int| 0 <= i < m1.skip(1).len() ==> m1.skip(1)[i] == m1[i + 1]);
        assert(forall|i: int| 0 <= i < m2.skip(1).len() ==> m2.skip(1)[i] == m2[i + 1]);
        lemma_ser_entry_prefix(m1[0], m2[0], ser_index(m1.skip(1)), ser_index(m2.skip(1)));
        lemma_serialization_round_trip(m1.skip(1), m2.skip(1));
        assert(m1 =~= m2) by {
            assert forall|i: int| 0 <= i < m1.len() implies m1[i] == m2[i] by {
                if i > 0 {
                    assert(m1.skip(1)[i - 1] == m1[i]);
                    assert(m2.skip(1)[i - 1] == m2[i]);
                }
            }
        }
    }
}


/// Checks that every counter of the index fits the 4-byte fields of the
/// format.
pub fn check_serializable(ix: &crate::index::InMemoryIndex) -> (r: bool)
    ensures
        r == serializable(ix.model()),
{
    let ghost m = ix.model();
    let n = ix.entries.len();
    let mut i: usize = 0;
    while i < n
        invariant
            0 <= i <= n,
            n == ix.entries@.len(),
            m == ix.model(),
            forall|l: int| 0 <= l < i ==> entry_serializable(#[trigger] m[l]),
        decreases n - i,
    {
        proof {
            assert(m[i as int] == ix.entries@[i as int].model());
        }
        let e = &ix.entries[i];
        if e.term.len() > u32::MAX as usize {
            proof {
                assert(!entry_serializable(m[i as int]));
            }
            return false;
        }
        if e.postings.len() > u32::MAX as usize {
            proof {
                assert(!entry_serializable(m[i as int]));
            }
            return false;
        }
        let ghost em = m[i as int];
        let pn = e.postings.len();
        let mut k: usize = 0;
        while k < pn
            invariant
                0 <= k <= pn,
                pn == e.postings@.len(),
                em == e.model(),
                m == ix.model(),
                0 <= i < m.len(),
                em == m[i as int],
                forall|l: int|
                    0 <= l < k ==> (#[trigger] em.postings[l]).positions.len() <= u32::MAX,
            decreases pn - k,
        {
            proof {
                assert(em.postings[k as int] == e.postings@[k as int].model());
            }
            if e.postings[k].positions.len() > u32::MAX as usize {
                proof {
                    assert(!serializable(m)) by {
                        if serializable(m) {
                            assert(entry_serializable(em));
                        }
                    }
                }
                return false;
            }
            k = k + 1;
        }
        i = i + 1;
    }
    true
}

} // verus!
