//! The persisted form of the immutable index: a self-describing, versioned
//! byte image.
//!
//! Layout: a header (format version, flags, token count), then per token its
//! bytes and its compressed posting list (encoding tag, id count, first id,
//! data length, data), then the frozen reverse entries with their position
//! tables.  All scalar fields are 32-bit little-endian.  The serializer is a
//! pure function of the index, so flushing twice writes identical bytes;
//! loading validates the version and every structural invariant, and rejects
//! anything else rather than interpreting it partially.

use vstd::prelude::*;
use vstd::arithmetic::div_mod::lemma_div_denominator;
use vstd::arithmetic::div_mod::lemma_div_multiples_vanish_fancy;
use vstd::arithmetic::div_mod::lemma_mod_multiples_vanish;
use crate::immutable_index::ImmutableInvertedIndex;
use crate::immutable_index::CompressedPosting;
use crate::mutable_index::PointDoc;

verus! {

/// The one format version this build writes and accepts.
pub const FORMAT_VERSION: u32 = 1;

/// The four little-endian base-256 digits of `x`.
pub open spec fn enc_u32(x: u32) -> Seq<u8> {
    seq![
        ((x as int) % 256) as u8,
        (((x as int) / 256) % 256) as u8,
        (((x as int) / 65536) % 256) as u8,
        ((x as int) / 16777216) as u8,
    ]
}

/// The value of four little-endian base-256 digits.
pub open spec fn u32_of(b0: u8, b1: u8, b2: u8, b3: u8) -> int {
    b0 as int + 256 * (b1 as int) + 65536 * (b2 as int) + 16777216 * (b3 as int)
}

/// Digit extraction undoes the digit sum.
proof fn lemma_digits_of_sum(b0: u8, b1: u8, b2: u8, b3: u8)
    ensures
        u32_of(b0, b1, b2, b3) % 256 == b0 as int,
        (u32_of(b0, b1, b2, b3) / 256) % 256 == b1 as int,
        (u32_of(b0, b1, b2, b3) / 65536) % 256 == b2 as int,
        u32_of(b0, b1, b2, b3) / 16777216 == b3 as int,
        0 <= u32_of(b0, b1, b2, b3) <= u32::MAX,
{
    let q1 = b1 as int + 256 * (b2 as int) + 65536 * (b3 as int);
    let q2 = b2 as int + 256 * (b3 as int);
    let v = u32_of(b0, b1, b2, b3);
    assert(v == 256 * q1 + b0 as int);
    lemma_div_multiples_vanish_fancy(q1, b0 as int, 256);
    lemma_mod_multiples_vanish(q1, b0 as int, 256);
    assert(v / 256 == q1);
    assert(v % 256 == b0 as int);
    assert(q1 == 256 * q2 + b1 as int);
    lemma_div_multiples_vanish_fancy(q2, b1 as int, 256);
    lemma_mod_multiples_vanish(q2, b1 as int, 256);
    assert(q1 / 256 == q2);
    assert(q1 % 256 == b1 as int);
    assert(q2 == 256 * (b3 as int) + b2 as int);
    lemma_div_multiples_vanish_fancy(b3 as int, b2 as int, 256);
    lemma_mod_multiples_vanish(b3 as int, b2 as int, 256);
    lemma_div_denominator(v, 256, 256);
    lemma_div_denominator(v, 65536, 256);
    assert(v / 65536 == q2);
    assert(v / 16777216 == b3 as int);
}

/// A length-prefixed byte string.
pub open spec fn enc_bytes(b: Seq<u8>) -> Seq<u8> {
    enc_u32(b.len() as u32) + b
}

/// One compressed posting list: tag, id count, first id, data.
pub open spec fn enc_posting(e: CompressedPosting) -> Seq<u8> {
    seq![if e.wide { 1u8 } else { 0u8 }] + enc_u32(e.count as u32) + enc_u32(e.first)
        + enc_bytes(e.data@)
}

/// The first `k` vocabulary entries with their postings, concatenated.
pub open spec fn enc_entries(vocab: Seq<Vec<u8>>, entries: Seq<CompressedPosting>, k: int) -> Seq<
    u8>
    decreases k,
{
    if k <= 0 {
        Seq::empty()
    } else {
        enc_entries(vocab, entries, k - 1) + enc_bytes(vocab[k - 1]@) + enc_posting(entries[k - 1])
    }
}

/// A u32 sequence, each value as four bytes.
pub open spec fn enc_u32s(s: Seq<u32>) -> Seq<u8>
    decreases s.len(),
{
    if s.len() == 0 {
        Seq::empty()
    } else {
        enc_u32s(s.drop_last()) + enc_u32(s.last())
    }
}

/// A usize sequence, each value as four bytes.
pub open spec fn enc_usizes(s: Seq<usize>) -> Seq<u8>
    decreases s.len(),
{
    if s.len() == 0 {
        Seq::empty()
    } else {
        enc_usizes(s.drop_last()) + enc_u32(s.last() as u32)
    }
}

/// The first `k` position rows, each length-prefixed.
pub open spec fn enc_rows(rows: Seq<Vec<u32>>, k: int) -> Seq<u8>
    decreases k,
{
    if k <= 0 {
        Seq::empty()
    } else {
        enc_rows(rows, k - 1) + enc_u32(rows[k - 1]@.len() as u32) + enc_u32s(rows[k - 1]@)
    }
}

/// One frozen reverse entry: point id, token-id count, token ids, rows.
pub open spec fn enc_doc(d: PointDoc) -> Seq<u8> {
    enc_u32(d.point) + enc_u32(d.token_ids@.len() as u32) + enc_usizes(d.token_ids@)
        + enc_rows(d.positions@, d.positions@.len() as int)
}

/// The first `k` reverse entries, concatenated.
pub open spec fn enc_docs(docs: Seq<PointDoc>, k: int) -> Seq<u8>
    decreases k,
{
    if k <= 0 {
        Seq::empty()
    } else {
        enc_docs(docs, k - 1) + enc_doc(docs[k - 1])
    }
}

impl ImmutableInvertedIndex {
    /// Every length in the index fits the image's 32-bit fields.
    pub open spec fn bounded(&self) -> bool {
        &&& self.vocab@.len() <= u32::MAX
        &&& forall|t: int|
            0 <= t < self.vocab@.len()
                ==> (#[trigger] self.vocab@[t])@.len() <= u32::MAX
                    && self.entries@[t].count <= u32::MAX
                    && self.entries@[t].data@.len() <= u32::MAX
        &&& self.point_docs@.len() <= u32::MAX
        &&& forall|e: int|
            0 <= e < self.point_docs@.len()
                ==> (#[trigger] self.point_docs@[e]).token_ids@.len() <= u32::MAX
                    && (forall|j: int|
                        0 <= j < self.point_docs@[e].positions@.len()
                            ==> (#[trigger] self.point_docs@[e].positions@[j])@.len() <= u32::MAX)
    }

    /// The byte image of this index: a pure function of its content.
    pub open spec fn spec_image(&self) -> Seq<u8> {
        enc_u32(FORMAT_VERSION) + enc_u32(if self.positions_enabled { 1u32 } else { 0u32 })
            + enc_u32(self.vocab@.len() as u32)
            + enc_entries(self.vocab@, self.entries@, self.vocab@.len() as int)
            + enc_u32(self.point_docs@.len() as u32)
            + enc_docs(self.point_docs@, self.point_docs@.len() as int)
    }
}

/// Append the four little-endian digits of `x`.
fn push_u32(buf: &mut Vec<u8>, x: u32)
    ensures
        final(buf)@ == old(buf)@ + enc_u32(x),
{
    let ghost pre = buf@;
    buf.push((x % 256) as u8);
    buf.push(((x / 256) % 256) as u8);
    buf.push(((x / 65536) % 256) as u8);
    buf.push((x / 16777216) as u8);
    proof {
        assert(buf@ =~= pre + enc_u32(x));
    }
}

/// Append raw bytes.
fn push_bytes(buf: &mut Vec<u8>, b: &Vec<u8>)
    ensures
        final(buf)@ == old(buf)@ + b@,
{
    let ghost pre = buf@;
    let n = b.len();
    let mut i: usize = 0;
    while i < n
        invariant
            i <= n,
            n == b@.len(),
            buf@ == pre + b@.subrange(0, i as int),
        decreases n - i,
    {
        buf.push(b[i]);
        proof {
            assert(buf@ =~= pre + b@.subrange(0, i + 1));
        }
        i += 1;
    }
    proof {
        assert(b@.subrange(0, n as int) =~= b@);
    }
}

/// Append a u32 sequence, each value as four bytes.
fn push_u32s(buf: &mut Vec<u8>, s: &Vec<u32>)
    ensures
        final(buf)@ == old(buf)@ + enc_u32s(s@),
{
    let ghost pre = buf@;
    let n = s.len();
    let mut i: usize = 0;
    proof {
        assert(enc_u32s(s@.subrange(0, 0)) =~= Seq::<u8>::empty());
        assert(buf@ =~= pre + enc_u32s(s@.subrange(0, 0)));
    }
    while i < n
        invariant
            i <= n,
            n == s@.len(),
            buf@ == pre + enc_u32s(s@.subrange(0, i as int)),
        decreases n - i,
    {
        push_u32(buf, s[i]);
        proof {
            let s1 = s@.subrange(0, i + 1);
            assert(s1.drop_last() =~= s@.subrange(0, i as int));
            assert(s1.last() == s@[i as int]);
            assert(buf@ =~= pre + enc_u32s(s1));
        }
        i += 1;
    }
    proof {
        assert(s@.subrange(0, n as int) =~= s@);
    }
}

/// Append a usize sequence, each value as four bytes.
fn push_usizes(buf: &mut Vec<u8>, s: &Vec<usize>)
    requires
        forall|j: int| 0 <= j < s@.len() ==> (#[trigger] s@[j]) <= u32::MAX,
    ensures
        final(buf)@ == old(buf)@ + enc_usizes(s@),
{
    let ghost pre = buf@;
    let n = s.len();
    let mut i: usize = 0;
    proof {
        assert(enc_usizes(s@.subrange(0, 0)) =~= Seq::<u8>::empty());
        assert(buf@ =~= pre + enc_usizes(s@.subrange(0, 0)));
    }
    while i < n
        invariant
            i <= n,
            n == s@.len(),
            forall|j: int| 0 <= j < s@.len() ==> (#[trigger] s@[j]) <= u32::MAX,
            buf@ == pre + enc_usizes(s@.subrange(0, i as int)),
        decreases n - i,
    {
        assert(s@[i as int] <= u32::MAX);
        push_u32(buf, s[i] as u32);
        proof {
            let s1 = s@.subrange(0, i + 1);
            assert(s1.drop_last() =~= s@.subrange(0, i as int));
            assert(s1.last() == s@[i as int]);
            assert(buf@ =~= pre + enc_usizes(s1));
        }
        i += 1;
    }
    proof {
        assert(s@.subrange(0, n as int) =~= s@);
    }
}

impl ImmutableInvertedIndex {
    /// Serialize the index into its byte image.  The image is a pure
    /// function of the index, so repeating the flush yields identical bytes.
    pub fn serialize(&self) -> (r: Vec<u8>)
        requires
            self.wf(),
            self.bounded(),
        ensures
            r@ == self.spec_image(),
    {
        let mut buf: Vec<u8> = Vec::new();
        push_u32(&mut buf, FORMAT_VERSION);
        push_u32(&mut buf, if self.positions_enabled { 1 } else { 0 });
        let nv = self.vocab.len();
        push_u32(&mut buf, nv as u32);
        let ghost head = buf@;
        let mut t: usize = 0;
        proof {
            assert(buf@ =~= head + enc_entries(self.vocab@, self.entries@, 0));
        }
        while t < nv
            invariant
                t <= nv,
                nv == self.vocab@.len(),
                self.wf(),
                self.bounded(),
                buf@ == head + enc_entries(self.vocab@, self.entries@, t as int),
            decreases nv - t,
        {
            push_u32(&mut buf, self.vocab[t].len() as u32);
            push_bytes(&mut buf, &self.vocab[t]);
            let e = &self.entries[t];
            buf.push(if e.wide { 1 } else { 0 });
            push_u32(&mut buf, e.count as u32);
            push_u32(&mut buf, e.first);
            push_u32(&mut buf, e.data.len() as u32);
            push_bytes(&mut buf, &e.data);
            proof {
                assert(buf@ =~= head + enc_entries(self.vocab@, self.entries@, t + 1));
            }
            t += 1;
        }
        let nd = self.point_docs.len();
        push_u32(&mut buf, nd as u32);
        let ghost head2 = buf@;
        let mut dce: usize = 0;
        proof {
            assert(buf@ =~= head2 + enc_docs(self.point_docs@, 0));
        }
        while dce < nd
            invariant
                dce <= nd,
                nd == self.point_docs@.len(),
                self.wf(),
                self.bounded(),
                buf@ == head2 + enc_docs(self.point_docs@, dce as int),
            decreases nd - dce,
        {
            let d = &self.point_docs[dce];
            push_u32(&mut buf, d.point);
            push_u32(&mut buf, d.token_ids.len() as u32);
            proof {
                assert(self.point_docs@[dce as int].wf(self.vocab@.len() as int));
                assert forall|j: int|
                    0 <= j < d.token_ids@.len() implies (#[trigger] d.token_ids@[j]) <= u32::MAX by {
                    assert(d.token_ids@[j] < self.vocab@.len() as int);
                }
            }
            push_usizes(&mut buf, &d.token_ids);
            let ghost rowhead = buf@;
            let nr = d.positions.len();
            let mut rw: usize = 0;
            proof {
                assert(buf@ =~= rowhead + enc_rows(d.positions@, 0));
            }
            while rw < nr
                invariant
                    rw <= nr,
                    nr == d.positions@.len(),
                    self.bounded(),
                    0 <= dce < self.point_docs@.len(),
                    d == &self.point_docs@[dce as int],
                    buf@ == rowhead + enc_rows(d.positions@, rw as int),
                decreases nr - rw,
            {
                proof {
                    assert(self.point_docs@[dce as int].positions@[rw as int]@.len() <= u32::MAX);
                }
                push_u32(&mut buf, d.positions[rw].len() as u32);
                push_u32s(&mut buf, &d.positions[rw]);
                proof {
                    assert(buf@ =~= rowhead + enc_rows(d.positions@, rw + 1));
                }
                rw += 1;
            }
            proof {
                assert(buf@ =~= head2 + enc_docs(self.point_docs@, dce + 1));
            }
            dce += 1;
        }
        proof {
            assert(buf@ =~= self.spec_image());
        }
        buf
    }
}


/// Extension on the right does not change an encoded prefix.
proof fn lemma_enc_entries_prefix(
    v1: Seq<Vec<u8>>,
    e1: Seq<CompressedPosting>,
    v2: Seq<Vec<u8>>,
    e2: Seq<CompressedPosting>,
    k: int,
)
    requires
        0 <= k <= v1.len(),
        k <= v2.len(),
        k <= e1.len(),
        k <= e2.len(),
        forall|j: int| 0 <= j < k ==> v1[j] == v2[j] && e1[j] == e2[j],
    ensures
        enc_entries(v1, e1, k) == enc_entries(v2, e2, k),
    decreases k,
{
    if k > 0 {
        lemma_enc_entries_prefix(v1, e1, v2, e2, k - 1);
    }
}

/// Extension on the right does not change encoded reverse entries.
proof fn lemma_enc_docs_prefix(d1: Seq<PointDoc>, d2: Seq<PointDoc>, k: int)
    requires
        0 <= k <= d1.len(),
        k <= d2.len(),
        forall|j: int| 0 <= j < k ==> d1[j] == d2[j],
    ensures
        enc_docs(d1, k) == enc_docs(d2, k),
    decreases k,
{
    if k > 0 {
        lemma_enc_docs_prefix(d1, d2, k - 1);
    }
}

/// Extension on the right does not change encoded position rows.
proof fn lemma_enc_rows_prefix(r1: Seq<Vec<u32>>, r2: Seq<Vec<u32>>, k: int)
    requires
        0 <= k <= r1.len(),
        k <= r2.len(),
        forall|j: int| 0 <= j < k ==> r1[j] == r2[j],
    ensures
        enc_rows(r1, k) == enc_rows(r2, k),
    decreases k,
{
    if k > 0 {
        lemma_enc_rows_prefix(r1, r2, k - 1);
    }
}

/// Read a 32-bit little-endian value.
fn read_u32(bytes: &Vec<u8>, at: usize) -> (r: u32)
    requires
        at + 4 <= bytes@.len(),
    ensures
        enc_u32(r) == bytes@.subrange(at as int, at as int + 4),
        r as int == u32_of(bytes@[at as int], bytes@[at as int + 1], bytes@[at as int + 2],
            bytes@[at as int + 3]),
{
    let n = bytes.len();
    assert(at + 4 <= n);
    let b0 = bytes[at];
    let b1 = bytes[at + 1];
    let b2 = bytes[at + 2];
    let b3 = bytes[at + 3];
    proof {
        lemma_digits_of_sum(b0, b1, b2, b3);
    }
    let v = b0 as u32 + 256 * (b1 as u32) + 65536 * (b2 as u32) + 16777216 * (b3 as u32);
    proof {
        assert(enc_u32(v) =~= bytes@.subrange(at as int, at as int + 4));
    }
    v
}

/// Copy `bytes[a..b]`.
fn copy_range(bytes: &Vec<u8>, a: usize, b: usize) -> (r: Vec<u8>)
    requires
        a <= b <= bytes@.len(),
    ensures
        r@ == bytes@.subrange(a as int, b as int),
{
    let mut out: Vec<u8> = Vec::new();
    let mut i: usize = a;
    while i < b
        invariant
            a <= i <= b <= bytes@.len(),
            out@ == bytes@.subrange(a as int, i as int),
        decreases b - i,
    {
        out.push(bytes[i]);
        proof {
            assert(out@ =~= bytes@.subrange(a as int, i + 1));
        }
        i += 1;
    }
    out
}

/// Why a byte image was rejected.
#[derive(Debug, PartialEq, Eq, Structural)]
pub enum StorageError {
    /// The image ends before a field it promises.
    Truncated,
    /// The header names a version this build does not know.
    UnsupportedVersion,
    /// A structural invariant does not hold of the decoded content.
    Malformed,
}



/// The length of an encoded u32 sequence.
proof fn lemma_enc_u32s_len(s: Seq<u32>)
    ensures
        enc_u32s(s).len() == 4 * s.len(),
    decreases s.len(),
{
    if s.len() > 0 {
        lemma_enc_u32s_len(s.drop_last());
    }
}

/// The length of an encoded usize sequence.
proof fn lemma_enc_usizes_len(s: Seq<usize>)
    ensures
        enc_usizes(s).len() == 4 * s.len(),
    decreases s.len(),
{
    if s.len() > 0 {
        lemma_enc_usizes_len(s.drop_last());
    }
}

/// Decode and validate the id list of one compressed posting.
#[verifier::loop_isolation(false)]
#[verifier::rlimit(100)]
fn decode_ids(wide: bool, cnt: usize, first: u32, data: &Vec<u8>) -> (r: Result<Vec<u32>,
    StorageError>)
    requires
        data@.len() == (if cnt == 0 {
            0int
        } else if wide {
            4 * (cnt - 1) as int
        } else {
            (cnt - 1) as int
        }),
    ensures
        match r {
            Ok(ids) => {
                &&& crate::postings::strictly_sorted(ids@)
                &&& ids@.len() == cnt
                &&& (cnt > 0 ==> ids@[0] == first)
                &&& (!wide ==> forall|j: int|
                    0 <= j < cnt - 1 ==> (#[trigger] ids@[j + 1]) - ids@[j] <= 256)
                &&& (!wide ==> forall|j: int|
                    0 <= j < cnt - 1 ==> (#[trigger] data@[j]) == (ids@[j + 1] - ids@[j] - 1) as u8)
                &&& (wide ==> forall|j: int|
                    0 <= j < cnt - 1 ==> (#[trigger] data@[4 * j]) == ((ids@[j + 1] as int)
                        % 256) as u8)
                &&& (wide ==> forall|j: int|
                    0 <= j < cnt - 1 ==> (#[trigger] data@[4 * j + 1]) == (((ids@[j + 1] as int)
                        / 256) % 256) as u8)
                &&& (wide ==> forall|j: int|
                    0 <= j < cnt - 1 ==> (#[trigger] data@[4 * j + 2]) == (((ids@[j + 1] as int)
                        / 65536) % 256) as u8)
                &&& (wide ==> forall|j: int|
                    0 <= j < cnt - 1 ==> (#[trigger] data@[4 * j + 3]) == ((ids@[j + 1] as int)
                        / 16777216) as u8)
            },
            Err(e) => e is Malformed,
        },
{
    let mut ids: Vec<u32> = Vec::new();
    if cnt == 0 {
        return Ok(ids);
    }
    ids.push(first);
    let mut prev = first;
    let mut k: usize = 0;
    let dl = data.len();
    while k < cnt - 1
        invariant
            k <= cnt - 1,
            ids@.len() == k + 1,
            ids@[0] == first,
            crate::postings::strictly_sorted(ids@),
            prev == ids@[k as int],
            !wide ==> forall|j: int| 0 <= j < k ==> (#[trigger] ids@[j + 1]) - ids@[j] <= 256,
            !wide ==> forall|j: int|
                0 <= j < k ==> (#[trigger] data@[j]) == (ids@[j + 1] - ids@[j] - 1) as u8,
            wide ==> forall|j: int|
                0 <= j < k ==> (#[trigger] data@[4 * j]) == ((ids@[j + 1] as int) % 256) as u8,
            wide ==> forall|j: int|
                0 <= j < k ==> (#[trigger] data@[4 * j + 1]) == (((ids@[j + 1] as int) / 256)
                    % 256) as u8,
            wide ==> forall|j: int|
                0 <= j < k ==> (#[trigger] data@[4 * j + 2]) == (((ids@[j + 1] as int) / 65536)
                    % 256) as u8,
            wide ==> forall|j: int|
                0 <= j < k ==> (#[trigger] data@[4 * j + 3]) == ((ids@[j + 1] as int)
                    / 16777216) as u8,
        decreases cnt - 1 - k,
    {
        let ghost idspre = ids@;
        let v: u32;
        if wide {
            assert(4 * (k as int) + 3 < dl);
            let b0 = data[4 * k];
            let b1 = data[4 * k + 1];
            let b2 = data[4 * k + 2];
            let b3 = data[4 * k + 3];
            proof {
                lemma_digits_of_sum(b0, b1, b2, b3);
            }
            v = b0 as u32 + 256 * (b1 as u32) + 65536 * (b2 as u32) + 16777216 * (b3 as u32);
            if v <= prev {
                return Err(StorageError::Malformed);
            }
            proof {
                assert(data@[4 * (k as int)] == ((v as int) % 256) as u8);
                assert(data@[4 * (k as int) + 1] == (((v as int) / 256) % 256) as u8);
                assert(data@[4 * (k as int) + 2] == (((v as int) / 65536) % 256) as u8);
                assert(data@[4 * (k as int) + 3] == ((v as int) / 16777216) as u8);
            }
        } else {
            let d = data[k];
            let step = d as u32 + 1;
            match prev.checked_add(step) {
                Some(x) => {
                    v = x;
                },
                None => {
                    return Err(StorageError::Malformed);
                },
            }
            proof {
                assert(v - prev <= 256);
                assert(data@[k as int] == (v - prev - 1) as u8);
            }
        }
        ids.push(v);
        proof {
            assert(ids@ =~= idspre.push(v));
            assert forall|u: int, w: int| 0 <= u < w < ids@.len() implies ids@[u] < ids@[w] by {
                if w < idspre.len() {
                } else {
                    assert(ids@[w] == v);
                    if u < idspre.len() {
                        assert(ids@[u] == idspre[u]);
                        assert(idspre[u] <= idspre[k as int]);
                    }
                }
            }
            if !wide {
                assert forall|j: int|
                    0 <= j < k + 1 implies (#[trigger] ids@[j + 1]) - ids@[j] <= 256 by {
                    if j < k as int {
                        assert(ids@[j + 1] == idspre[j + 1]);
                        assert(ids@[j] == idspre[j]);
                        assert(idspre[j + 1] - idspre[j] <= 256);
                    } else {
                        assert(j == k as int);
                        assert(ids@[j + 1] == v);
                        assert(ids@[j] == prev);
                        assert(v - prev <= 256);
                    }
                }
                assert forall|j: int|
                    0 <= j < k + 1 implies (#[trigger] data@[j])
                        == (ids@[j + 1] - ids@[j] - 1) as u8 by {
                    if j < k as int {
                        assert(ids@[j + 1] == idspre[j + 1]);
                        assert(ids@[j] == idspre[j]);
                        assert(data@[j] == (idspre[j + 1] - idspre[j] - 1) as u8);
                        assert(idspre[j + 1] - idspre[j] <= 256);
                    } else {
                        assert(j == k as int);
                        assert(ids@[j + 1] == v);
                        assert(ids@[j] == idspre[k as int]);
                        assert(ids@[j] == prev);
                        assert(ids@[j + 1] - ids@[j] == v - prev);
                        assert(data@[j] == (v - prev - 1) as u8);
                    }
                }
            } else {
                assert forall|j: int|
                    0 <= j < k + 1 implies (#[trigger] data@[4 * j]) == ((ids@[j + 1] as int)
                        % 256) as u8 by {
                    if j < k as int {
                        assert(ids@[j + 1] == idspre[j + 1]);
                    } else {
                        assert(j == k as int);
                        assert(ids@[j + 1] == v);
                    }
                }
                assert forall|j: int|
                    0 <= j < k + 1 implies (#[trigger] data@[4 * j + 1]) == (((ids@[j + 1] as int)
                        / 256) % 256) as u8 by {
                    if j < k as int {
                        assert(ids@[j + 1] == idspre[j + 1]);
                    } else {
                        assert(j == k as int);
                        assert(ids@[j + 1] == v);
                    }
                }
                assert forall|j: int|
                    0 <= j < k + 1 implies (#[trigger] data@[4 * j + 2]) == (((ids@[j + 1] as int)
                        / 65536) % 256) as u8 by {
                    if j < k as int {
                        assert(ids@[j + 1] == idspre[j + 1]);
                    } else {
                        assert(j == k as int);
                        assert(ids@[j + 1] == v);
                    }
                }
                assert forall|j: int|
                    0 <= j < k + 1 implies (#[trigger] data@[4 * j + 3]) == ((ids@[j + 1] as int)
                        / 16777216) as u8 by {
                    if j < k as int {
                        assert(ids@[j + 1] == idspre[j + 1]);
                    } else {
                        assert(j == k as int);
                        assert(ids@[j + 1] == v);
                    }
                }
            }
        }
        prev = v;
        k += 1;
    }
    Ok(ids)
}

/// The bytes at `at` are exactly the encoding of a parsed posting.
#[verifier::rlimit(100)]
#[verifier::spinoff_prover]
proof fn lemma_posting_bytes(
    b: Seq<u8>,
    at: int,
    ent: CompressedPosting,
    tag: u8,
    cnt32: u32,
    dlen32: u32,
)
    requires
        0 <= at,
        at + 13 + ent.data@.len() <= b.len(),
        b[at] == tag,
        tag == (if ent.wide { 1u8 } else { 0u8 }),
        ent.count as u32 == cnt32,
        ent.data@.len() as u32 == dlen32,
        enc_u32(cnt32) == b.subrange(at + 1, at + 5),
        enc_u32(ent.first) == b.subrange(at + 5, at + 9),
        enc_u32(dlen32) == b.subrange(at + 9, at + 13),
        ent.data@ == b.subrange(at + 13, at + 13 + ent.data@.len()),
    ensures
        b.subrange(at, at + 13 + ent.data@.len()) == enc_posting(ent),
{
    let dlen = ent.data@.len() as int;
    assert(enc_posting(ent).len() == 13 + dlen);
    assert forall|i: int|
        0 <= i < 13 + dlen implies enc_posting(ent)[i] == b.subrange(at, at + 13 + dlen)[i] by {
        let ep = enc_posting(ent);
        if i == 0 {
            assert(ep[0] == tag);
        } else if i < 5 {
            assert(ep[i] == enc_u32(cnt32)[i - 1]);
            assert(enc_u32(cnt32)[i - 1] == b[at + i]);
        } else if i < 9 {
            assert(ep[i] == enc_u32(ent.first)[i - 5]);
            assert(enc_u32(ent.first)[i - 5] == b[at + i]);
        } else if i < 13 {
            assert(ep[i] == enc_u32(dlen32)[i - 9]);
            assert(enc_u32(dlen32)[i - 9] == b[at + i]);
        } else {
            assert(ep[i] == ent.data@[i - 13]);
            assert(ent.data@[i - 13] == b[at + i]);
        }
    }
    assert(b.subrange(at, at + 13 + dlen) =~= enc_posting(ent));
}

/// Parse one compressed posting list at `at`.
#[verifier::loop_isolation(false)]
#[verifier::rlimit(100)]
fn parse_posting(bytes: &Vec<u8>, at: usize) -> (r: Result<(CompressedPosting, usize),
    StorageError>)
    requires
        at <= bytes@.len(),
    ensures
        match r {
            Ok(p) => {
                &&& at <= p.1 <= bytes@.len()
                &&& p.0.wf()
                &&& p.0.count <= u32::MAX
                &&& p.0.data@.len() <= u32::MAX
                &&& bytes@.subrange(at as int, p.1 as int) == enc_posting(p.0)
            },
            Err(e) => !(e is UnsupportedVersion),
        },
{
    let n = bytes.len();
    if n - at < 13 {
        return Err(StorageError::Truncated);
    }
    let tag = bytes[at];
    if tag > 1 {
        return Err(StorageError::Malformed);
    }
    let wide = tag == 1;
    let cnt32 = read_u32(bytes, at + 1);
    let first = read_u32(bytes, at + 5);
    let dlen32 = read_u32(bytes, at + 9);
    let cnt = cnt32 as usize;
    let dlen = dlen32 as usize;
    let expected: u64 = if cnt == 0 {
        0
    } else if wide {
        4 * (cnt as u64 - 1)
    } else {
        cnt as u64 - 1
    };
    if dlen as u64 != expected {
        return Err(StorageError::Malformed);
    }
    if n - (at + 13) < dlen {
        return Err(StorageError::Truncated);
    }
    let data = copy_range(bytes, at + 13, at + 13 + dlen);
    let ids = match decode_ids(wide, cnt, first, &data) {
        Ok(ids) => ids,
        Err(e) => {
            return Err(e);
        },
    };
    let ent = CompressedPosting { wide, count: cnt, first, data, ids: Ghost(ids@) };
    let newcur = at + 13 + dlen;
    proof {
        if !ent.wide {
            assert forall|j: int|
                0 <= j < ent.count - 1 implies ent.ids@[j + 1] - ent.ids@[j] <= 256 && (
                #[trigger] ent.data@[j]) == (ent.ids@[j + 1] - ent.ids@[j] - 1) as u8 by {
                assert(ids@[j + 1] - ids@[j] <= 256);
                assert(ent.data@[j] == (ids@[j + 1] - ids@[j] - 1) as u8);
            }
        } else {
            assert forall|j: int| 0 <= j < ent.count - 1 implies {
                let v = ent.ids@[j + 1] as int;
                &&& #[trigger] ent.data@[4 * j] == (v % 256) as u8
                &&& ent.data@[4 * j + 1] == ((v / 256) % 256) as u8
                &&& ent.data@[4 * j + 2] == ((v / 65536) % 256) as u8
                &&& ent.data@[4 * j + 3] == ((v / 16777216)) as u8
            } by {
                assert(ent.data@[4 * j] == ((ids@[j + 1] as int) % 256) as u8);
                assert(ent.data@[4 * j + 1] == (((ids@[j + 1] as int) / 256) % 256) as u8);
                assert(ent.data@[4 * j + 2] == (((ids@[j + 1] as int) / 65536) % 256) as u8);
                assert(ent.data@[4 * j + 3] == ((ids@[j + 1] as int) / 16777216) as u8);
            }
        }
        assert(ent.wf());
        lemma_posting_bytes(bytes@, at as int, ent, tag, cnt32, dlen32);
    }
    Ok((ent, newcur))
}

/// Parse one frozen reverse entry at `at`, validating every invariant.
#[verifier::loop_isolation(false)]
#[verifier::rlimit(60)]
fn parse_doc(bytes: &Vec<u8>, at: usize, nv: usize) -> (r: Result<(PointDoc, usize),
    StorageError>)
    requires
        at <= bytes@.len(),
        nv <= u32::MAX,
    ensures
        match r {
            Ok(p) => {
                &&& at + 8 <= p.1 <= bytes@.len()
                &&& p.0.wf(nv as int)
                &&& p.0.token_ids@.len() <= u32::MAX
                &&& (forall|l: int|
                    0 <= l < p.0.positions@.len()
                        ==> (#[trigger] p.0.positions@[l])@.len() <= u32::MAX)
                &&& bytes@.subrange(at as int, p.1 as int) == enc_doc(p.0)
            },
            Err(e) => !(e is UnsupportedVersion),
        },
{
    let n = bytes.len();
    if n - at < 8 {
        return Err(StorageError::Truncated);
    }
    let point = read_u32(bytes, at);
    let k32 = read_u32(bytes, at + 4);
    let k = k32 as usize;
    let mut cur = at + 8;
    let ghost d1 = cur as int;
    let mut token_ids: Vec<usize> = Vec::new();
    let mut j: usize = 0;
    proof {
        assert(bytes@.subrange(d1, cur as int) =~= enc_usizes(token_ids@));
    }
    while j < k
        invariant
            j <= k,
            nv <= u32::MAX,
            at + 8 <= cur <= n,
            d1 == at + 8,
            n == bytes@.len(),
            cur as int == d1 + 4 * j,
            token_ids@.len() == j,
            forall|i: int, l: int| 0 <= i < l < j ==> token_ids@[i] != token_ids@[l],
            forall|i: int| 0 <= i < j ==> (#[trigger] token_ids@[i]) < nv,
            bytes@.subrange(d1, cur as int) == enc_usizes(token_ids@),
        decreases k - j,
    {
        if n - cur < 4 {
            return Err(StorageError::Truncated);
        }
        let tid32 = read_u32(bytes, cur);
        let tid = tid32 as usize;
        if tid >= nv {
            return Err(StorageError::Malformed);
        }
        match crate::mutable_index::find_in_ids(&token_ids, tid) {
            Some(_) => {
                return Err(StorageError::Malformed);
            },
            None => {},
        }
        let ghost tidspre = token_ids@;
        let ghost c_old = cur as int;
        token_ids.push(tid);
        cur = cur + 4;
        proof {
            assert(token_ids@.drop_last() =~= tidspre);
            assert(token_ids@.last() == tid);
            assert(enc_usizes(token_ids@) == enc_usizes(tidspre) + enc_u32((tid as u32)));
            assert((tid as u32) == tid32);
            lemma_enc_usizes_len(tidspre);
            assert(bytes@.subrange(d1, cur as int) =~= bytes@.subrange(d1, c_old)
                + bytes@.subrange(c_old, cur as int));
            assert(bytes@.subrange(c_old, cur as int) == enc_u32(tid32));
            assert(bytes@.subrange(d1, cur as int) =~= enc_usizes(token_ids@));
            assert forall|i: int, l: int|
                0 <= i < l < j + 1 implies token_ids@[i] != token_ids@[l] by {
                if l == j as int {
                    assert(!tidspre.contains(tid));
                    if token_ids@[i] == tid {
                        assert(tidspre[i] == tid);
                        assert(tidspre.contains(tid));
                    }
                }
            }
        }
        j += 1;
    }
    let ghost d2 = cur as int;
    let mut positions: Vec<Vec<u32>> = Vec::new();
    let mut rw: usize = 0;
    proof {
        assert(bytes@.subrange(d2, cur as int) =~= enc_rows(positions@, 0));
    }
    while rw < k
        invariant
            rw <= k,
            at <= cur <= n,
            d2 <= cur as int,
            n == bytes@.len(),
            positions@.len() == rw,
            forall|i: int|
                0 <= i < rw ==> crate::postings::strictly_sorted((#[trigger] positions@[i])@)
                    && positions@[i]@.len() <= u32::MAX,
            bytes@.subrange(d2, cur as int) == enc_rows(positions@, rw as int),
        decreases k - rw,
    {
        if n - cur < 4 {
            return Err(StorageError::Truncated);
        }
        let rlen32 = read_u32(bytes, cur);
        let rlen = rlen32 as usize;
        let ghost r0 = cur as int;
        cur = cur + 4;
        let ghost r1 = cur as int;
        let mut row: Vec<u32> = Vec::new();
        let mut ri: usize = 0;
        proof {
            assert(bytes@.subrange(r1, cur as int) =~= enc_u32s(row@));
        }
        while ri < rlen
            invariant
                ri <= rlen,
                at <= cur <= n,
                r1 <= cur as int,
                n == bytes@.len(),
                cur as int == r1 + 4 * ri,
                row@.len() == ri,
                crate::postings::strictly_sorted(row@),
                bytes@.subrange(r1, cur as int) == enc_u32s(row@),
            decreases rlen - ri,
        {
            if n - cur < 4 {
                return Err(StorageError::Truncated);
            }
            let pos = read_u32(bytes, cur);
            if ri > 0 {
                let last = row[ri - 1];
                if pos <= last {
                    return Err(StorageError::Malformed);
                }
            }
            let ghost rowpre = row@;
            let ghost c_old = cur as int;
            row.push(pos);
            cur = cur + 4;
            proof {
                assert(row@.drop_last() =~= rowpre);
                assert(enc_u32s(row@) == enc_u32s(rowpre) + enc_u32(pos));
                lemma_enc_u32s_len(rowpre);
                assert(bytes@.subrange(r1, cur as int) =~= bytes@.subrange(r1, c_old)
                    + bytes@.subrange(c_old, cur as int));
                assert(bytes@.subrange(c_old, cur as int) == enc_u32(pos));
                assert(bytes@.subrange(r1, cur as int) =~= enc_u32s(row@));
                assert forall|u: int, w: int|
                    0 <= u < w < row@.len() implies row@[u] < row@[w] by {
                    if w == ri as int && ri > 0 {
                        assert(rowpre[u] <= rowpre[ri - 1]);
                    }
                }
            }
            ri += 1;
        }
        let ghost positionspre = positions@;
        positions.push(row);
        proof {
            lemma_enc_rows_prefix(positions@, positionspre, rw as int);
            assert((positions@[rw as int]@.len() as u32) == rlen32);
            lemma_enc_u32s_len(positions@[rw as int]@);
            assert(bytes@.subrange(d2, cur as int) =~= bytes@.subrange(d2, r0)
                + bytes@.subrange(r0, r1) + bytes@.subrange(r1, cur as int));
            assert(bytes@.subrange(r0, r1) == enc_u32(rlen32));
            assert(enc_rows(positions@, rw + 1) == enc_rows(positions@, rw as int) + enc_u32(
                positions@[rw as int]@.len() as u32) + enc_u32s(positions@[rw as int]@));
            assert(bytes@.subrange(d2, cur as int) =~= enc_rows(positions@, rw + 1));
        }
        rw += 1;
    }
    let d = PointDoc { point, token_ids, positions };
    proof {
        assert(d.wf(nv as int));
        assert((d.token_ids@.len() as u32) == k32);
        lemma_enc_usizes_len(d.token_ids@);
        assert(bytes@.subrange(at as int, cur as int) =~= bytes@.subrange(at as int, at + 4)
            + bytes@.subrange(at + 4, at + 8) + bytes@.subrange(d1, d2)
            + bytes@.subrange(d2, cur as int));
        assert(bytes@.subrange(at as int, at + 4) == enc_u32(point));
        assert(bytes@.subrange(at + 4, at + 8) == enc_u32(k32));
        assert(bytes@.subrange(at as int, cur as int) =~= enc_doc(d));
    }
    Ok((d, cur))
}


/// Equal encodings come from equal values.
proof fn lemma_enc_u32_injective(a: u32, b: u32)
    requires
        enc_u32(a) == enc_u32(b),
    ensures
        a == b,
{
    let ai = a as int;
    let bi = b as int;
    lemma_div_denominator(ai, 256, 256);
    lemma_div_denominator(ai, 65536, 256);
    lemma_div_denominator(bi, 256, 256);
    lemma_div_denominator(bi, 65536, 256);
    assert(ai == 256 * (ai / 256) + ai % 256);
    assert(ai / 256 == 256 * (ai / 256 / 256) + (ai / 256) % 256);
    assert(ai / 65536 == 256 * (ai / 65536 / 256) + (ai / 65536) % 256);
    assert(bi == 256 * (bi / 256) + bi % 256);
    assert(bi / 256 == 256 * (bi / 256 / 256) + (bi / 256) % 256);
    assert(bi / 65536 == 256 * (bi / 65536 / 256) + (bi / 65536) % 256);
    assert(enc_u32(a)[0] == enc_u32(b)[0]);
    assert(enc_u32(a)[1] == enc_u32(b)[1]);
    assert(enc_u32(a)[2] == enc_u32(b)[2]);
    assert(enc_u32(a)[3] == enc_u32(b)[3]);
    assert(ai % 256 == bi % 256);
    assert((ai / 256) % 256 == (bi / 256) % 256);
    assert((ai / 65536) % 256 == (bi / 65536) % 256);
    assert(ai / 16777216 == bi / 16777216);
}

/// Parse `nv` vocabulary entries with their postings, starting at `at`.
#[verifier::loop_isolation(false)]
#[verifier::rlimit(100)]
fn parse_entries(bytes: &Vec<u8>, at: usize, nv: usize) -> (r: Result<(Vec<Vec<u8>>, Vec<
    CompressedPosting>, usize), StorageError>)
    requires
        at <= bytes@.len(),
    ensures
        match r {
            Ok(p) => {
                &&& at <= p.2 <= bytes@.len()
                &&& p.0@.len() == nv
                &&& p.1@.len() == nv
                &&& (forall|i: int, j: int|
                    0 <= i < j < nv ==> (#[trigger] p.0@[i])@ != (#[trigger] p.0@[j])@)
                &&& (forall|j: int|
                    0 <= j < nv ==> (#[trigger] p.1@[j]).wf() && p.0@[j]@.len() <= u32::MAX
                        && p.1@[j].count <= u32::MAX && p.1@[j].data@.len() <= u32::MAX)
                &&& bytes@.subrange(at as int, p.2 as int) == enc_entries(p.0@, p.1@, nv as int)
            },
            Err(e) => !(e is UnsupportedVersion),
        },
{
    let n = bytes.len();
    let mut cur: usize = at;
    let mut vocab: Vec<Vec<u8>> = Vec::new();
    let mut entries: Vec<CompressedPosting> = Vec::new();
    let mut t: usize = 0;
    proof {
        assert(bytes@.subrange(at as int, cur as int) =~= enc_entries(vocab@, entries@, 0));
    }
    while t < nv
        invariant
            t <= nv,
            at <= cur <= n,
            vocab@.len() == t,
            entries@.len() == t,
            forall|i: int, j: int|
                0 <= i < j < t ==> (#[trigger] vocab@[i])@ != (#[trigger] vocab@[j])@,
            forall|j: int|
                0 <= j < t ==> (#[trigger] entries@[j]).wf() && vocab@[j]@.len() <= u32::MAX
                    && entries@[j].count <= u32::MAX && entries@[j].data@.len() <= u32::MAX,
            bytes@.subrange(at as int, cur as int) == enc_entries(vocab@, entries@, t as int),
        decreases nv - t,
    {
        let ghost c0 = cur as int;
        if n - cur < 4 {
            return Err(StorageError::Truncated);
        }
        let tlen32 = read_u32(bytes, cur);
        let tlen = tlen32 as usize;
        if n - (cur + 4) < tlen {
            return Err(StorageError::Truncated);
        }
        let tok = copy_range(bytes, cur + 4, cur + 4 + tlen);
        let mut sc: usize = 0;
        while sc < t
            invariant
                sc <= t,
                forall|i: int| 0 <= i < sc ==> (#[trigger] vocab@[i])@ != tok@,
            decreases t - sc,
        {
            if crate::tokenizer::bytes_eq(&vocab[sc], &tok) {
                return Err(StorageError::Malformed);
            }
            sc += 1;
        }
        cur = cur + 4 + tlen;
        proof {
            assert((tok@.len() as u32) == tlen32);
            assert(bytes@.subrange(c0, c0 + 4) == enc_u32(tlen32));
            assert(bytes@.subrange(c0, cur as int) =~= bytes@.subrange(c0, c0 + 4)
                + bytes@.subrange(c0 + 4, cur as int));
            assert(enc_bytes(tok@) =~= bytes@.subrange(c0, cur as int));
        }
        let ghost c1 = cur as int;
        let parsed = match parse_posting(bytes, cur) {
            Ok(p) => p,
            Err(e) => {
                return Err(e);
            },
        };
        let ent = parsed.0;
        cur = parsed.1;
        let ghost vocabpre = vocab@;
        let ghost entriespre = entries@;
        vocab.push(tok);
        entries.push(ent);
        proof {
            lemma_enc_entries_prefix(vocab@, entries@, vocabpre, entriespre, t as int);
            assert(enc_entries(vocab@, entries@, t + 1) == enc_entries(vocab@, entries@, t as int)
                + enc_bytes(vocab@[t as int]@) + enc_posting(entries@[t as int]));
            assert(bytes@.subrange(at as int, cur as int) =~= bytes@.subrange(at as int, c0)
                + bytes@.subrange(c0, c1) + bytes@.subrange(c1, cur as int));
            assert(bytes@.subrange(at as int, cur as int) =~= enc_entries(vocab@, entries@, t + 1));
            assert forall|i: int, j: int|
                0 <= i < j < t + 1 implies (#[trigger] vocab@[i])@ != (#[trigger] vocab@[j])@ by {
                if j == t as int {
                    assert(vocab@[i]@ != tok@);
                }
            }
        }
        t += 1;
    }
    Ok((vocab, entries, cur))
}

/// The point id at the head of an encoded reverse entry.
#[verifier::spinoff_prover]
proof fn lemma_doc_head(b: Seq<u8>, d0: int, end: int, d: PointDoc, point: u32)
    requires
        0 <= d0,
        d0 + 4 <= end <= b.len(),
        b.subrange(d0, end) == enc_doc(d),
        enc_u32(point) == b.subrange(d0, d0 + 4),
    ensures
        d.point == point,
{
    assert forall|i: int| 0 <= i < 4 implies enc_u32(d.point)[i] == enc_u32(point)[i] by {
        assert(enc_doc(d)[i] == enc_u32(d.point)[i]);
        assert(enc_doc(d)[i] == b.subrange(d0, end)[i]);
        assert(enc_u32(point)[i] == b[d0 + i]);
    }
    assert(enc_u32(d.point) =~= enc_u32(point));
    lemma_enc_u32_injective(d.point, point);
}

/// Parse `nd` frozen reverse entries starting at `at`.
#[verifier::loop_isolation(false)]
#[verifier::rlimit(100)]
#[verifier::spinoff_prover]
fn parse_docs(bytes: &Vec<u8>, at: usize, nv: usize, nd: usize) -> (r: Result<(Vec<PointDoc>,
    usize), StorageError>)
    requires
        at <= bytes@.len(),
        nv <= u32::MAX,
    ensures
        match r {
            Ok(p) => {
                &&& at <= p.1 <= bytes@.len()
                &&& p.0@.len() == nd
                &&& (forall|i: int, j: int|
                    0 <= i < j < nd ==> p.0@[i].point != p.0@[j].point)
                &&& (forall|j: int|
                    0 <= j < nd ==> (#[trigger] p.0@[j]).wf(nv as int)
                        && p.0@[j].token_ids@.len() <= u32::MAX)
                &&& (forall|j: int, l: int|
                    0 <= j < nd && 0 <= l < p.0@[j].positions@.len()
                        ==> (#[trigger] p.0@[j].positions@[l])@.len() <= u32::MAX)
                &&& bytes@.subrange(at as int, p.1 as int) == enc_docs(p.0@, nd as int)
            },
            Err(e) => !(e is UnsupportedVersion),
        },
{
    let n = bytes.len();
    let mut cur: usize = at;
    let mut point_docs: Vec<PointDoc> = Vec::new();
    let mut dc: usize = 0;
    proof {
        assert(bytes@.subrange(at as int, cur as int) =~= enc_docs(point_docs@, 0));
    }
    while dc < nd
        invariant
            dc <= nd,
            at <= cur <= n,
            point_docs@.len() == dc,
            forall|i: int, j: int|
                0 <= i < j < dc ==> point_docs@[i].point != point_docs@[j].point,
            forall|j: int|
                0 <= j < dc ==> (#[trigger] point_docs@[j]).wf(nv as int)
                    && point_docs@[j].token_ids@.len() <= u32::MAX,
            forall|j: int, l: int|
                0 <= j < dc && 0 <= l < point_docs@[j].positions@.len()
                    ==> (#[trigger] point_docs@[j].positions@[l])@.len() <= u32::MAX,
            bytes@.subrange(at as int, cur as int) == enc_docs(point_docs@, dc as int),
        decreases nd - dc,
    {
        let ghost d0 = cur as int;
        if n - cur < 4 {
            return Err(StorageError::Truncated);
        }
        let point = read_u32(bytes, cur);
        let mut sc: usize = 0;
        while sc < dc
            invariant
                sc <= dc,
                forall|i: int| 0 <= i < sc ==> point_docs@[i].point != point,
            decreases dc - sc,
        {
            if point_docs[sc].point == point {
                return Err(StorageError::Malformed);
            }
            sc += 1;
        }
        let parsed = match parse_doc(bytes, cur, nv) {
            Ok(p) => p,
            Err(e) => {
                return Err(e);
            },
        };
        let d = parsed.0;
        cur = parsed.1;
        proof {
            lemma_doc_head(bytes@, d0, cur as int, d, point);
        }
        let ghost docspre = point_docs@;
        point_docs.push(d);
        proof {
            lemma_enc_docs_prefix(point_docs@, docspre, dc as int);
            assert(enc_docs(point_docs@, dc + 1) == enc_docs(point_docs@, dc as int) + enc_doc(
                point_docs@[dc as int]));
            assert(bytes@.subrange(at as int, cur as int) =~= bytes@.subrange(at as int, d0)
                + bytes@.subrange(d0, cur as int));
            assert(bytes@.subrange(at as int, cur as int) =~= enc_docs(point_docs@, dc + 1));
            assert forall|i: int, j: int|
                0 <= i < j < dc + 1 implies point_docs@[i].point != point_docs@[j].point by {
                if j == dc as int {
                    assert(point_docs@[i].point != point);
                }
            }
        }
        dc += 1;
    }
    Ok((point_docs, cur))
}

/// Assemble the image equality from its parsed regions.
#[verifier::spinoff_prover]
#[verifier::rlimit(100)]
proof fn lemma_image_assemble(
    b: Seq<u8>,
    ix: ImmutableInvertedIndex,
    flags: u32,
    c2: int,
    c3: int,
)
    requires
        12 <= c2 <= c3 <= b.len(),
        c3 == c2 + 4,
        flags <= 1,
        ix.positions_enabled == (flags == 1),
        ix.vocab@.len() <= u32::MAX,
        ix.point_docs@.len() <= u32::MAX,
        b.subrange(0, 4) == enc_u32(FORMAT_VERSION),
        b.subrange(4, 8) == enc_u32(flags),
        b.subrange(8, 12) == enc_u32(ix.vocab@.len() as u32),
        b.subrange(12, c2) == enc_entries(ix.vocab@, ix.entries@, ix.vocab@.len() as int),
        b.subrange(c2, c3) == enc_u32(ix.point_docs@.len() as u32),
        b.subrange(c3, b.len() as int) == enc_docs(ix.point_docs@, ix.point_docs@.len() as int),
    ensures
        ix.spec_image() == b,
{
    assert(enc_u32(if ix.positions_enabled { 1u32 } else { 0u32 }) == enc_u32(flags));
    assert(b =~= b.subrange(0, 4) + b.subrange(4, 8) + b.subrange(8, 12) + b.subrange(12, c2)
        + b.subrange(c2, c3) + b.subrange(c3, b.len() as int));
    assert(ix.spec_image() =~= b);
}

/// Open a persisted byte image.  The header version is validated first: an
/// unknown version is rejected outright rather than partially interpreted.
/// A successful open yields a well-formed index whose own image is exactly
/// the given bytes.
#[verifier::loop_isolation(false)]
#[verifier::rlimit(100)]
#[verifier::spinoff_prover]
pub fn open_image(bytes: &Vec<u8>) -> (r: Result<ImmutableInvertedIndex, StorageError>)
    ensures
        match r {
            Ok(ix) => ix.wf() && ix.bounded() && ix.spec_image() == bytes@,
            Err(e) => true,
        },
        (r is Err && r->Err_0 is UnsupportedVersion) <==> (bytes@.len() >= 4 && u32_of(
            bytes@[0],
            bytes@[1],
            bytes@[2],
            bytes@[3],
        ) != FORMAT_VERSION as int),
{
    let n = bytes.len();
    if n < 4 {
        return Err(StorageError::Truncated);
    }
    let ver = read_u32(bytes, 0);
    if ver != FORMAT_VERSION {
        return Err(StorageError::UnsupportedVersion);
    }
    if n - 4 < 8 {
        return Err(StorageError::Truncated);
    }
    let flags = read_u32(bytes, 4);
    if flags > 1 {
        return Err(StorageError::Malformed);
    }
    let positions_enabled = flags == 1;
    let vlen32 = read_u32(bytes, 8);
    let nv = vlen32 as usize;
    let parsed = match parse_entries(bytes, 12, nv) {
        Ok(p) => p,
        Err(e) => {
            return Err(e);
        },
    };
    let vocab = parsed.0;
    let entries = parsed.1;
    let mut cur = parsed.2;
    let ghost c2 = cur as int;
    if n - cur < 4 {
        return Err(StorageError::Truncated);
    }
    let nd32 = read_u32(bytes, cur);
    let nd = nd32 as usize;
    cur = cur + 4;
    let parsed2 = match parse_docs(bytes, cur, nv, nd) {
        Ok(p) => p,
        Err(e) => {
            return Err(e);
        },
    };
    let point_docs = parsed2.0;
    let ghost c3 = cur as int;
    cur = parsed2.1;
    if cur != n {
        return Err(StorageError::Malformed);
    }
    let ix = ImmutableInvertedIndex { vocab, entries, point_docs, positions_enabled };
    proof {
        assert(ix.wf()) by {
            assert forall|i: int, j: int|
                0 <= i < j < ix.vocabv().len() implies ix.vocabv()[i] != ix.vocabv()[j] by {
                assert(ix.vocab@[i]@ != ix.vocab@[j]@);
            }
        }
        assert(ix.bounded()) by {
            assert forall|t: int|
                0 <= t < ix.vocab@.len()
                implies (#[trigger] ix.vocab@[t])@.len() <= u32::MAX
                    && ix.entries@[t].count <= u32::MAX
                    && ix.entries@[t].data@.len() <= u32::MAX by {
                assert((#[trigger] entries@[t]).wf());
                assert(vocab@[t]@.len() <= u32::MAX);
            }
            assert forall|e: int|
                0 <= e < ix.point_docs@.len()
                implies (#[trigger] ix.point_docs@[e]).token_ids@.len() <= u32::MAX && (forall|
                j: int|
                0 <= j < ix.point_docs@[e].positions@.len()
                    ==> (#[trigger] ix.point_docs@[e].positions@[j])@.len() <= u32::MAX) by {
                assert forall|j: int|
                    0 <= j < ix.point_docs@[e].positions@.len()
                    implies (#[trigger] ix.point_docs@[e].positions@[j])@.len() <= u32::MAX by {
                    assert(point_docs@[e].positions@[j]@.len() <= u32::MAX);
                }
            }
        }
        assert((ix.vocab@.len() as u32) == vlen32);
        assert((ix.point_docs@.len() as u32) == nd32);
        assert(bytes@.subrange(12, c2) == enc_entries(ix.vocab@, ix.entries@,
            ix.vocab@.len() as int));
        assert(bytes@.subrange(c3, n as int) == enc_docs(ix.point_docs@,
            ix.point_docs@.len() as int));
        lemma_image_assemble(bytes@, ix, flags, c2, c3);
    }
    Ok(ix)
}


impl ImmutableInvertedIndex {
    /// Whether every length fits the image's 32-bit fields, decided at run
    /// time.
    pub fn is_bounded(&self) -> (r: bool)
        requires
            self.wf(),
        ensures
            r == self.bounded(),
    {
        let nv = self.vocab.len();
        if nv > u32::MAX as usize {
            return false;
        }
        let mut t: usize = 0;
        while t < nv
            invariant
                t <= nv,
                self.wf(),
                nv == self.vocab@.len(),
                forall|j: int|
                    0 <= j < t ==> (#[trigger] self.vocab@[j])@.len() <= u32::MAX
                        && self.entries@[j].count <= u32::MAX
                        && self.entries@[j].data@.len() <= u32::MAX,
            decreases nv - t,
        {
            if self.vocab[t].len() > u32::MAX as usize
                || self.entries[t].count > u32::MAX as usize
                || self.entries[t].data.len() > u32::MAX as usize {
                return false;
            }
            t += 1;
        }
        let nd = self.point_docs.len();
        if nd > u32::MAX as usize {
            return false;
        }
        let mut e: usize = 0;
        while e < nd
            invariant
                e <= nd,
                self.wf(),
                nd == self.point_docs@.len(),
                forall|j: int|
                    0 <= j < e ==> (#[trigger] self.point_docs@[j]).token_ids@.len() <= u32::MAX
                        && (forall|l: int|
                            0 <= l < self.point_docs@[j].positions@.len()
                                ==> (#[trigger] self.point_docs@[j].positions@[l])@.len()
                                    <= u32::MAX),
            decreases nd - e,
        {
            let d = &self.point_docs[e];
            if d.token_ids.len() > u32::MAX as usize {
                return false;
            }
            let nr = d.positions.len();
            let mut l: usize = 0;
            while l < nr
                invariant
                    l <= nr,
                    0 <= e < self.point_docs@.len(),
                    d == &self.point_docs@[e as int],
                    nr == d.positions@.len(),
                    forall|j: int|
                        0 <= j < l ==> (#[trigger] d.positions@[j])@.len() <= u32::MAX,
                decreases nr - l,
            {
                if d.positions[l].len() > u32::MAX as usize {
                    proof {
                        assert(self.point_docs@[e as int].positions@[l as int]@.len()
                            > u32::MAX);
                    }
                    return false;
                }
                l += 1;
            }
            e += 1;
        }
        true
    }
}

/// The flusher is idempotent: two images of one index state are the same
/// bytes, so flushing twice leaves on-disk state identical to flushing once.
pub proof fn lemma_flush_idempotent(ix: &ImmutableInvertedIndex, a: Seq<u8>, b: Seq<u8>)
    requires
        a == ix.spec_image(),
        b == ix.spec_image(),
    ensures
        a == b,
{
}

} // verus!
