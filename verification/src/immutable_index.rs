//! The immutable inverted index and its builder.
//!
//! The builder compacts a mutable index into a frozen layout: every posting
//! list is delta-compressed into a byte array, with an encoding chosen per
//! list — one byte per gap where all gaps fit, four little-endian bytes per
//! id otherwise.  Lookup decodes on access; no insert or remove is exposed.

use vstd::prelude::*;
use vstd::arithmetic::div_mod::lemma_div_denominator;
use crate::postings::strictly_sorted;
use crate::postings::clone_u32s;
use crate::mutable_index::MutableInvertedIndex;
use crate::mutable_index::PointDoc;
use crate::tokenizer::views_of;

verus! {

/// One compressed posting list.  `ids` is the mathematical content; the
/// executable fields carry its compressed encoding.
pub struct CompressedPosting {
    /// Encoding tag: four little-endian bytes per id after the first, or,
    /// when `false`, one byte per gap (gap minus one; gaps of at most 256).
    pub wide: bool,
    /// Number of point ids in the list.
    pub count: usize,
    /// The first id; meaningful only when `count > 0`.
    pub first: u32,
    /// The encoded ids after the first.
    pub data: Vec<u8>,
    /// The decoded content.
    pub ids: Ghost<Seq<u32>>,
}

impl CompressedPosting {
    /// The encoding is faithful to `ids`.
    pub open spec fn wf(&self) -> bool {
        &&& strictly_sorted(self.ids@)
        &&& self.count == self.ids@.len()
        &&& self.count > 0 ==> self.first == self.ids@[0]
        &&& if self.wide {
            &&& self.data@.len() == 4 * (if self.count == 0 { 0int } else { self.count - 1 })
            &&& forall|k: int| 0 <= k < self.count - 1 ==> {
                let v = self.ids@[k + 1] as int;
                &&& #[trigger] self.data@[4 * k] == (v % 256) as u8
                &&& self.data@[4 * k + 1] == ((v / 256) % 256) as u8
                &&& self.data@[4 * k + 2] == ((v / 65536) % 256) as u8
                &&& self.data@[4 * k + 3] == ((v / 16777216) % 256) as u8
            }
        } else {
            &&& self.data@.len() == (if self.count == 0 { 0int } else { self.count - 1 })
            &&& forall|k: int| 0 <= k < self.count - 1 ==> {
                &&& self.ids@[k + 1] - self.ids@[k] <= 256
                &&& #[trigger] self.data@[k]
                    == (self.ids@[k + 1] - self.ids@[k] - 1) as u8
            }
        }
    }
}

/// A u32 is the sum of its four little-endian base-256 digits.
proof fn lemma_u32_digits(x: u32)
    ensures
        (x as int) == (x as int) % 256 + 256 * (((x as int) / 256) % 256)
            + 65536 * (((x as int) / 65536) % 256) + 16777216 * ((x as int) / 16777216),
        (x as int) / 16777216 < 256,
{
    let xi = x as int;
    lemma_div_denominator(xi, 256, 256);
    lemma_div_denominator(xi, 65536, 256);
    assert(xi / 256 / 256 == xi / 65536);
    assert(xi / 65536 / 256 == xi / 16777216);
    assert(xi == 256 * (xi / 256) + xi % 256);
    assert(xi / 256 == 256 * (xi / 256 / 256) + (xi / 256) % 256);
    assert(xi / 65536 == 256 * (xi / 65536 / 256) + (xi / 65536) % 256);
}

/// Compress a strictly ascending id list, choosing the narrow gap encoding
/// when every gap fits in one byte.
pub fn compress_ids(ids: &Vec<u32>) -> (r: CompressedPosting)
    requires
        strictly_sorted(ids@),
    ensures
        r.wf(),
        r.ids@ == ids@,
{
    let n = ids.len();
    let mut narrow_ok = true;
    let mut k: usize = 1;
    while k < n
        invariant
            1 <= k || n == 0,
            k <= n || n == 0,
            n == ids@.len(),
            strictly_sorted(ids@),
            narrow_ok <==> (forall|j: int| 1 <= j < k ==> (#[trigger] ids@[j]) - ids@[j - 1] <= 256),
        decreases n - k,
    {
        assert(ids@[k - 1] < ids@[k as int]);
        if ids[k] - ids[k - 1] > 256 {
            narrow_ok = false;
        }
        k += 1;
    }
    let first = if n > 0 {
        ids[0]
    } else {
        0
    };
    let mut data: Vec<u8> = Vec::new();
    if narrow_ok {
        let mut k: usize = 1;
        while k < n
            invariant
                1 <= k || n == 0,
                k <= n || n == 0,
                n == ids@.len(),
                strictly_sorted(ids@),
                forall|j: int| 1 <= j < n ==> (#[trigger] ids@[j]) - ids@[j - 1] <= 256,
                data@.len() == (if n == 0 { 0int } else { k - 1 }),
                forall|j: int|
                    0 <= j < data@.len()
                        ==> #[trigger] data@[j] == (ids@[j + 1] - ids@[j] - 1) as u8,
            decreases n - k,
        {
            assert(ids@[k - 1] < ids@[k as int]);
            let d = ids[k] - ids[k - 1] - 1;
            assert(d <= 255);
            data.push(d as u8);
            k += 1;
        }
        CompressedPosting { wide: false, count: n, first, data, ids: Ghost(ids@) }
    } else {
        let mut k: usize = 1;
        while k < n
            invariant
                1 <= k || n == 0,
                k <= n || n == 0,
                n == ids@.len(),
                strictly_sorted(ids@),
                data@.len() == 4 * (if n == 0 { 0int } else { k - 1 }),
                forall|j: int| 0 <= j < (if n == 0 { 0int } else { k - 1 }) ==> {
                    let v = ids@[j + 1] as int;
                    &&& #[trigger] data@[4 * j] == (v % 256) as u8
                    &&& data@[4 * j + 1] == ((v / 256) % 256) as u8
                    &&& data@[4 * j + 2] == ((v / 65536) % 256) as u8
                    &&& data@[4 * j + 3] == ((v / 16777216) % 256) as u8
                },
            decreases n - k,
        {
            let v = ids[k];
            let ghost datapre = data@;
            proof {
                lemma_u32_digits(v);
            }
            data.push((v % 256) as u8);
            data.push(((v / 256) % 256) as u8);
            data.push(((v / 65536) % 256) as u8);
            data.push((v / 16777216) as u8);
            proof {
                assert((v as int) / 16777216 < 256);
                assert(((v as int) / 16777216) % 256 == (v as int) / 16777216);
                assert(data@.len() == 4 * (k as int));
                assert forall|j: int| 0 <= j < k as int implies {
                    let w = ids@[j + 1] as int;
                    &&& #[trigger] data@[4 * j] == (w % 256) as u8
                    &&& data@[4 * j + 1] == ((w / 256) % 256) as u8
                    &&& data@[4 * j + 2] == ((w / 65536) % 256) as u8
                    &&& data@[4 * j + 3] == ((w / 16777216) % 256) as u8
                } by {
                    if j < k as int - 1 {
                        assert(4 * j + 3 < datapre.len());
                        assert(data@[4 * j] == datapre[4 * j]);
                        assert(data@[4 * j + 1] == datapre[4 * j + 1]);
                        assert(data@[4 * j + 2] == datapre[4 * j + 2]);
                        assert(data@[4 * j + 3] == datapre[4 * j + 3]);
                    } else {
                        assert(j == k as int - 1);
                        assert(4 * j == datapre.len());
                        assert(data@[4 * j] == (v % 256) as u8);
                        assert(data@[4 * j + 1] == ((v / 256) % 256) as u8);
                        assert(data@[4 * j + 2] == ((v / 65536) % 256) as u8);
                        assert(data@[4 * j + 3] == (v / 16777216) as u8);
                        assert(ids@[j + 1] == v);
                    }
                }
            }
            k += 1;
        }
        CompressedPosting { wide: true, count: n, first, data, ids: Ghost(ids@) }
    }
}

impl CompressedPosting {
    /// Decode the list back into its plain ids.
    pub fn decode(&self) -> (r: Vec<u32>)
        requires
            self.wf(),
        ensures
            r@ == self.ids@,
            strictly_sorted(r@),
    {
        let mut out: Vec<u32> = Vec::new();
        if self.count == 0 {
            proof {
                assert(out@ =~= self.ids@);
            }
            return out;
        }
        out.push(self.first);
        let mut prev = self.first;
        let mut k: usize = 0;
        let dlen = self.data.len();
        proof {
            assert(out@ =~= self.ids@.subrange(0, 1));
        }
        while k < self.count - 1
            invariant
                k <= self.count - 1,
                self.wf(),
                self.count > 0,
                dlen == self.data@.len(),
                out@ == self.ids@.subrange(0, k + 1),
                prev == self.ids@[k as int],
            decreases self.count - 1 - k,
        {
            let v: u32;
            if self.wide {
                assert(4 * (k as int) + 3 < dlen);
                let b0 = self.data[4 * k];
                let b1 = self.data[4 * k + 1];
                let b2 = self.data[4 * k + 2];
                let b3 = self.data[4 * k + 3];
                proof {
                    lemma_u32_digits(self.ids@[k + 1]);
                }
                v = b0 as u32 + 256 * (b1 as u32) + 65536 * (b2 as u32)
                    + 16777216 * (b3 as u32);
                assert(v == self.ids@[k + 1]);
            } else {
                let d = self.data[k];
                assert(self.ids@[k + 1] - self.ids@[k as int] <= 256);
                assert(prev + 1 + d as u32 == self.ids@[k + 1]);
                v = prev + 1 + d as u32;
            }
            out.push(v);
            proof {
                assert(out@ =~= self.ids@.subrange(0, k + 2));
            }
            prev = v;
            k += 1;
        }
        proof {
            assert(self.ids@.subrange(0, self.ids@.len() as int) =~= self.ids@);
        }
        out
    }
}

/// The immutable inverted index: the frozen counterpart of the mutable one,
/// with compressed posting lists and the frozen per-point position store.
pub struct ImmutableInvertedIndex {
    /// Token id -> token bytes; entries are distinct.
    pub vocab: Vec<Vec<u8>>,
    /// Token id -> compressed posting list, parallel to `vocab`.
    pub entries: Vec<CompressedPosting>,
    /// One frozen reverse entry per indexed point.
    pub point_docs: Vec<PointDoc>,
    /// Whether documents carry per-occurrence positions for phrase queries.
    pub positions_enabled: bool,
}

impl ImmutableInvertedIndex {
    /// The vocabulary as byte sequences.
    pub open spec fn vocabv(&self) -> Seq<Seq<u8>> {
        views_of(self.vocab@)
    }

    pub open spec fn has_token(&self, t: Seq<u8>) -> bool {
        self.vocabv().contains(t)
    }

    pub open spec fn tid_of(&self, t: Seq<u8>) -> int {
        choose|i: int| 0 <= i < self.vocabv().len() && self.vocabv()[i] == t
    }

    /// The posting ids of token id `t`.
    pub open spec fn posting_seq(&self, t: int) -> Seq<u32> {
        self.entries@[t].ids@
    }

    pub open spec fn has_point(&self, p: u32) -> bool {
        exists|e: int| 0 <= e < self.point_docs@.len() && self.point_docs@[e].point == p
    }

    pub open spec fn doc_at(&self, p: u32) -> int {
        choose|e: int| 0 <= e < self.point_docs@.len() && self.point_docs@[e].point == p
    }

    /// Whether point `p`'s text contains token `t`.
    pub open spec fn member(&self, t: Seq<u8>, p: u32) -> bool {
        self.has_token(t) && self.posting_seq(self.tid_of(t)).contains(p)
    }

    /// The ascending positions of token `t` within point `p`'s token stream.
    pub open spec fn point_positions(&self, t: Seq<u8>, p: u32) -> Seq<u32> {
        if self.has_token(t) && self.has_point(p) {
            let d = self.point_docs@[self.doc_at(p)];
            match d.token_ids@.index_of_first(self.tid_of(t) as usize) {
                Some(j) => d.positions@[j]@,
                None => Seq::empty(),
            }
        } else {
            Seq::empty()
        }
    }

    pub open spec fn points_count(&self) -> int {
        self.point_docs@.len() as int
    }

    /// Whether the reverse entry of point `p` holds token id `t`.
    pub open spec fn doc_has_token(&self, p: u32, t: int) -> bool {
        exists|e: int|
            0 <= e < self.point_docs@.len() && self.point_docs@[e].point == p
                && self.point_docs@[e].token_ids@.contains(t as usize)
    }

    /// A point stands in a token's posting list exactly when its frozen
    /// reverse entry holds that token id.
    pub open spec fn consistent(&self) -> bool {
        forall|t: int, p: u32|
            0 <= t < self.entries@.len()
                ==> ((#[trigger] self.entries@[t].ids@.contains(p)) <==> self.doc_has_token(p, t))
    }

    pub open spec fn wf(&self) -> bool {
        &&& self.entries@.len() == self.vocab@.len()
        &&& forall|i: int, j: int|
            0 <= i < j < self.vocabv().len() ==> self.vocabv()[i] != self.vocabv()[j]
        &&& forall|t: int| 0 <= t < self.entries@.len() ==> (#[trigger] self.entries@[t]).wf()
        &&& forall|e: int, f: int|
            0 <= e < f < self.point_docs@.len()
                ==> self.point_docs@[e].point != self.point_docs@[f].point
        &&& forall|e: int|
            0 <= e < self.point_docs@.len()
                ==> (#[trigger] self.point_docs@[e]).wf(self.vocab@.len() as int)
    }

    /// If `t` stands in the vocabulary at index `k`, then `tid_of` picks `k`.
    pub proof fn lemma_tid(&self, k: int)
        requires
            self.wf(),
            0 <= k < self.vocabv().len(),
        ensures
            self.has_token(self.vocabv()[k]),
            self.tid_of(self.vocabv()[k]) == k,
    {
        let t = self.vocabv()[k];
        assert(self.vocabv().contains(t));
        let i = self.tid_of(t);
        if i < k {
            assert(self.vocabv()[i] != self.vocabv()[k]);
        } else if i > k {
            assert(self.vocabv()[k] != self.vocabv()[i]);
        }
    }
}

impl ImmutableInvertedIndex {
    /// The id of token `t` in this generation, if any.
    pub fn token_id(&self, t: &Vec<u8>) -> (r: Option<usize>)
        requires
            self.wf(),
        ensures
            match r {
                Some(tid) => tid < self.vocab@.len() && self.vocabv()[tid as int] == t@
                    && self.has_token(t@) && self.tid_of(t@) == tid,
                None => !self.has_token(t@),
            },
    {
        let n = self.vocab.len();
        let mut i: usize = 0;
        while i < n
            invariant
                i <= n,
                n == self.vocab@.len(),
                self.wf(),
                forall|j: int| 0 <= j < i ==> self.vocabv()[j] != t@,
            decreases n - i,
        {
            if crate::tokenizer::bytes_eq(&self.vocab[i], t) {
                assert(self.vocabv()[i as int] == t@);
                proof {
                    self.lemma_tid(i as int);
                }
                return Some(i);
            }
            i += 1;
        }
        proof {
            if self.has_token(t@) {
                let j = choose|j: int| 0 <= j < self.vocabv().len() && self.vocabv()[j] == t@;
                assert(self.vocabv()[j] != t@);
            }
        }
        None
    }

    /// The decoded posting list of token id `tid`.
    pub fn decoded_posting(&self, tid: usize) -> (r: Vec<u32>)
        requires
            self.wf(),
            tid < self.entries@.len(),
        ensures
            r@ == self.posting_seq(tid as int),
            strictly_sorted(r@),
    {
        self.entries[tid].decode()
    }

    /// The length of the posting list of token id `tid`.
    pub fn posting_count(&self, tid: usize) -> (r: usize)
        requires
            self.wf(),
            tid < self.entries@.len(),
        ensures
            r == self.posting_seq(tid as int).len(),
    {
        self.entries[tid].count
    }

    /// If `p` has a reverse entry at index `e`, then `doc_at` picks `e`.
    pub proof fn lemma_doc_at(&self, e: int)
        requires
            self.wf(),
            0 <= e < self.point_docs@.len(),
        ensures
            self.has_point(self.point_docs@[e].point),
            self.doc_at(self.point_docs@[e].point) == e,
    {
        let p = self.point_docs@[e].point;
        assert(exists|f: int| 0 <= f < self.point_docs@.len() && self.point_docs@[f].point == p);
        let f = self.doc_at(p);
        if f < e {
            assert(self.point_docs@[f].point != self.point_docs@[e].point);
        } else if f > e {
            assert(self.point_docs@[e].point != self.point_docs@[f].point);
        }
    }

    /// The reverse-entry index of point `p`, if it is indexed.
    fn find_doc(&self, p: u32) -> (r: Option<usize>)
        requires
            self.wf(),
        ensures
            match r {
                Some(e) => e < self.point_docs@.len() && self.point_docs@[e as int].point == p,
                None => !self.has_point(p),
            },
    {
        let n = self.point_docs.len();
        let mut e: usize = 0;
        while e < n
            invariant
                e <= n,
                n == self.point_docs@.len(),
                forall|f: int| 0 <= f < e ==> self.point_docs@[f].point != p,
            decreases n - e,
        {
            if self.point_docs[e].point == p {
                return Some(e);
            }
            e += 1;
        }
        proof {
            if self.has_point(p) {
                let f = choose|f: int|
                    0 <= f < self.point_docs@.len() && self.point_docs@[f].point == p;
                assert(self.point_docs@[f].point != p);
            }
        }
        None
    }

    /// The ascending positions of token `t` within point `p`'s token stream.
    pub fn positions(&self, t: &Vec<u8>, p: u32) -> (r: Vec<u32>)
        requires
            self.wf(),
        ensures
            r@ == self.point_positions(t@, p),
    {
        let tid_opt = self.token_id(t);
        let tid: usize;
        match tid_opt {
            None => {
                proof {
                    assert(self.point_positions(t@, p) =~= Seq::<u32>::empty());
                }
                return Vec::new();
            },
            Some(x) => {
                tid = x;
            },
        }
        let e_opt = self.find_doc(p);
        let e: usize;
        match e_opt {
            None => {
                proof {
                    assert(self.point_positions(t@, p) =~= Seq::<u32>::empty());
                }
                return Vec::new();
            },
            Some(x) => {
                e = x;
            },
        }
        proof {
            self.lemma_doc_at(e as int);
        }
        let d = &self.point_docs[e];
        let j_opt = crate::mutable_index::find_in_ids(&d.token_ids, tid);
        match j_opt {
            None => {
                proof {
                    d.token_ids@.index_of_first_ensures(tid);
                    assert(self.point_positions(t@, p) =~= Seq::<u32>::empty());
                }
                Vec::new()
            },
            Some(j) => {
                proof {
                    d.token_ids@.index_of_first_ensures(tid);
                    assert(d.token_ids@.contains(tid));
                    let f = d.token_ids@.index_of_first(tid)->0;
                    assert(d.token_ids@[f] == tid);
                    assert(self.point_docs@[e as int].wf(self.vocab@.len() as int));
                    if f < j as int {
                        assert(d.token_ids@[f] != d.token_ids@[j as int]);
                    } else if f > j as int {
                        assert(d.token_ids@[j as int] != d.token_ids@[f]);
                    }
                    assert(f == j as int);
                }
                clone_u32s(&d.positions[j])
            },
        }
    }
}


impl ImmutableInvertedIndex {
    /// Decide at run time whether postings and the frozen reverse map agree:
    /// a point stands in a token's posting list exactly when its reverse
    /// entry holds that token id.  A freshly built index always agrees; a
    /// loaded image is held to it before use.
    pub fn check_consistent(&self) -> (r: bool)
        requires
            self.wf(),
        ensures
            r == self.consistent(),
    {
        let nv = self.entries.len();
        let mut t: usize = 0;
        while t < nv
            invariant
                t <= nv,
                self.wf(),
                nv == self.entries@.len(),
                forall|t2: int, p: u32|
                    0 <= t2 < t && (#[trigger] self.entries@[t2].ids@.contains(p))
                        ==> self.doc_has_token(p, t2),
            decreases nv - t,
        {
            let ids = self.entries[t].decode();
            let m = ids.len();
            let mut k: usize = 0;
            while k < m
                invariant
                    k <= m,
                    self.wf(),
                    0 <= t < self.entries@.len(),
                    ids@ == self.entries@[t as int].ids@,
                    m == ids@.len(),
                    forall|k2: int|
                        0 <= k2 < k ==> self.doc_has_token(#[trigger] ids@[k2], t as int),
                decreases m - k,
            {
                let p = ids[k];
                match self.find_doc(p) {
                    None => {
                        proof {
                            assert(self.entries@[t as int].ids@.contains(p));
                            assert(!self.doc_has_token(p, t as int)) by {
                                if self.doc_has_token(p, t as int) {
                                    let e = choose|e: int|
                                        0 <= e < self.point_docs@.len()
                                            && self.point_docs@[e].point == p
                                            && self.point_docs@[e].token_ids@.contains(
                                            t as usize);
                                    assert(self.has_point(p));
                                }
                            }
                        }
                        return false;
                    },
                    Some(e) => {
                        let d = &self.point_docs[e];
                        match crate::mutable_index::find_in_ids(&d.token_ids, t) {
                            None => {
                                proof {
                                    assert(self.entries@[t as int].ids@.contains(p));
                                    assert(!self.doc_has_token(p, t as int)) by {
                                        if self.doc_has_token(p, t as int) {
                                            let e2 = choose|e2: int|
                                                0 <= e2 < self.point_docs@.len()
                                                    && self.point_docs@[e2].point == p
                                                    && self.point_docs@[e2].token_ids@.contains(
                                                    t as usize);
                                            if e2 < e as int {
                                                assert(self.point_docs@[e2].point
                                                    != self.point_docs@[e as int].point);
                                            } else if e2 > e as int {
                                                assert(self.point_docs@[e as int].point
                                                    != self.point_docs@[e2].point);
                                            }
                                            assert(e2 == e as int);
                                        }
                                    }
                                }
                                return false;
                            },
                            Some(_) => {
                                proof {
                                    assert(self.point_docs@[e as int].point == p
                                        && self.point_docs@[e as int].token_ids@.contains(
                                        t as usize));
                                    assert(self.doc_has_token(p, t as int));
                                }
                            },
                        }
                    },
                }
                k += 1;
            }
            t += 1;
        }
        // Every posting id has its reverse entry; now the converse.
        let nd = self.point_docs.len();
        let mut e: usize = 0;
        while e < nd
            invariant
                e <= nd,
                self.wf(),
                nd == self.point_docs@.len(),
                forall|t2: int, p: u32|
                    0 <= t2 < self.entries@.len()
                        && (#[trigger] self.entries@[t2].ids@.contains(p))
                        ==> self.doc_has_token(p, t2),
                forall|e2: int, j: int|
                    0 <= e2 < e && 0 <= j < self.point_docs@[e2].token_ids@.len()
                        ==> self.entries@[(#[trigger] self.point_docs@[e2].token_ids@[j]) as int]
                            .ids@.contains(self.point_docs@[e2].point),
            decreases nd - e,
        {
            let d = &self.point_docs[e];
            let p = d.point;
            let m = d.token_ids.len();
            let mut j: usize = 0;
            while j < m
                invariant
                    j <= m,
                    self.wf(),
                    0 <= e < self.point_docs@.len(),
                    d == &self.point_docs@[e as int],
                    p == d.point,
                    m == d.token_ids@.len(),
                    forall|j2: int|
                        0 <= j2 < j ==> self.entries@[(#[trigger] d.token_ids@[j2]) as int]
                            .ids@.contains(p),
                decreases m - j,
            {
                let tid = d.token_ids[j];
                proof {
                    assert(self.point_docs@[e as int].wf(self.vocab@.len() as int));
                    assert(d.token_ids@[j as int] < self.vocab@.len());
                }
                let ids = self.entries[tid].decode();
                if !crate::postings::contains_u32(&ids, p) {
                    proof {
                        assert(self.point_docs@[e as int].point == p
                            && self.point_docs@[e as int].token_ids@.contains(tid));
                        assert(self.doc_has_token(p, tid as int));
                        assert(!self.entries@[tid as int].ids@.contains(p));
                    }
                    return false;
                }
                j += 1;
            }
            e += 1;
        }
        proof {
            assert forall|t2: int, p: u32|
                0 <= t2 < self.entries@.len()
                implies ((#[trigger] self.entries@[t2].ids@.contains(p))
                    <==> self.doc_has_token(p, t2)) by {
                if self.doc_has_token(p, t2) {
                    let e2 = choose|e2: int|
                        0 <= e2 < self.point_docs@.len() && self.point_docs@[e2].point == p
                            && self.point_docs@[e2].token_ids@.contains(t2 as usize);
                    let j2 = choose|j2: int|
                        0 <= j2 < self.point_docs@[e2].token_ids@.len()
                            && self.point_docs@[e2].token_ids@[j2] == t2 as usize;
                    assert(self.entries@[(self.point_docs@[e2].token_ids@[j2]) as int]
                        .ids@.contains(self.point_docs@[e2].point));
                }
            }
        }
        true
    }
}

/// Copy a byte vector.
pub fn clone_bytes_pub(v: &Vec<u8>) -> (r: Vec<u8>)
    ensures
        r@ == v@,
{
    let mut out: Vec<u8> = Vec::new();
    let n = v.len();
    let mut i: usize = 0;
    while i < n
        invariant
            i <= n,
            n == v@.len(),
            out@ == v@.subrange(0, i as int),
        decreases n - i,
    {
        out.push(v[i]);
        proof {
            assert(out@ =~= v@.subrange(0, i + 1));
        }
        i += 1;
    }
    proof {
        assert(v@.subrange(0, n as int) =~= v@);
    }
    out
}

/// Copy a usize vector.
fn clone_usizes(v: &Vec<usize>) -> (r: Vec<usize>)
    ensures
        r@ == v@,
{
    let mut out: Vec<usize> = Vec::new();
    let n = v.len();
    let mut i: usize = 0;
    while i < n
        invariant
            i <= n,
            n == v@.len(),
            out@ == v@.subrange(0, i as int),
        decreases n - i,
    {
        out.push(v[i]);
        proof {
            assert(out@ =~= v@.subrange(0, i + 1));
        }
        i += 1;
    }
    proof {
        assert(v@.subrange(0, n as int) =~= v@);
    }
    out
}

/// Copy one reverse entry, field for field.
fn clone_point_doc(d: &PointDoc) -> (r: PointDoc)
    ensures
        r.point == d.point,
        r.token_ids@ == d.token_ids@,
        r.positions@.len() == d.positions@.len(),
        forall|i: int| 0 <= i < d.positions@.len() ==> r.positions@[i]@ == d.positions@[i]@,
        forall|vlen: int| d.wf(vlen) ==> r.wf(vlen),
{
    let token_ids = clone_usizes(&d.token_ids);
    let mut positions: Vec<Vec<u32>> = Vec::new();
    let n = d.positions.len();
    let mut i: usize = 0;
    while i < n
        invariant
            i <= n,
            n == d.positions@.len(),
            positions@.len() == i,
            forall|j: int|
                0 <= j < i ==> (#[trigger] positions@[j])@ == d.positions@[j]@,
        decreases n - i,
    {
        let row = clone_u32s(&d.positions[i]);
        positions.push(row);
        i += 1;
    }
    let r = PointDoc { point: d.point, token_ids, positions };
    proof {
        assert forall|vlen: int| d.wf(vlen) implies r.wf(vlen) by {
            assert forall|ii: int|
                0 <= ii < r.positions@.len()
                implies strictly_sorted(#[trigger] r.positions@[ii]@) by {
                assert(r.positions@[ii]@ == d.positions@[ii]@);
                assert(strictly_sorted(d.positions@[ii]@));
            }
        }
    }
    r
}

/// Build the frozen index from a mutable one.  The builder never mutates its
/// input; the result answers every membership and position question exactly
/// as the source does.
pub fn build_immutable(src: &MutableInvertedIndex) -> (r: ImmutableInvertedIndex)
    requires
        src.wf(),
    ensures
        r.wf(),
        r.positions_enabled == src.positions_enabled,
        r.vocabv() == src.vocabv(),
        r.points_count() == src.points_count(),
        forall|t: int|
            0 <= t < r.entries@.len() ==> r.posting_seq(t) == src.postings@[t]@,
        forall|t: Seq<u8>, p: u32| r.member(t, p) <==> src.member(t, p),
        forall|t: Seq<u8>, p: u32| r.point_positions(t, p) == src.point_positions(t, p),
        forall|p: u32| r.has_point(p) <==> src.has_point(p),
        forall|t: Seq<u8>| r.has_token(t) <==> src.has_token(t),
        r.consistent(),
    {
    let mut vocab: Vec<Vec<u8>> = Vec::new();
    let nv = src.vocab.len();
    let mut i: usize = 0;
    while i < nv
        invariant
            i <= nv,
            nv == src.vocab@.len(),
            vocab@.len() == i,
            forall|j: int| 0 <= j < i ==> (#[trigger] vocab@[j])@ == src.vocab@[j]@,
        decreases nv - i,
    {
        let t = clone_bytes_pub(&src.vocab[i]);
        vocab.push(t);
        i += 1;
    }
    let mut entries: Vec<CompressedPosting> = Vec::new();
    let mut i2: usize = 0;
    while i2 < nv
        invariant
            i2 <= nv,
            nv == src.vocab@.len(),
            src.wf(),
            entries@.len() == i2,
            forall|j: int| 0 <= j < i2 ==> (#[trigger] entries@[j]).wf()
                && entries@[j].ids@ == src.postings@[j]@,
        decreases nv - i2,
    {
        let pl = src.posting_list(i2);
        assert(pl.wf());
        let ent = compress_ids(&pl.ids);
        entries.push(ent);
        i2 += 1;
    }
    let mut point_docs: Vec<PointDoc> = Vec::new();
    let nd = src.point_docs.len();
    let mut i3: usize = 0;
    while i3 < nd
        invariant
            i3 <= nd,
            nd == src.point_docs@.len(),
            src.wf(),
            point_docs@.len() == i3,
            forall|j: int| 0 <= j < i3 ==> (#[trigger] point_docs@[j]).point
                == src.point_docs@[j].point
                && point_docs@[j].token_ids@ == src.point_docs@[j].token_ids@
                && point_docs@[j].wf(src.vocab@.len() as int)
                && point_docs@[j].positions@.len() == src.point_docs@[j].positions@.len()
                && (forall|l: int| 0 <= l < point_docs@[j].positions@.len()
                    ==> (#[trigger] point_docs@[j].positions@[l])@
                        == src.point_docs@[j].positions@[l]@),
        decreases nd - i3,
    {
        let d = clone_point_doc(&src.point_docs[i3]);
        proof {
            assert(src.point_docs@[i3 as int].wf(src.vocab@.len() as int));
        }
        point_docs.push(d);
        i3 += 1;
    }
    let r = ImmutableInvertedIndex {
        vocab,
        entries,
        point_docs,
        positions_enabled: src.positions_enabled,
    };
    proof {
        assert(r.vocabv() =~= src.vocabv()) by {
            assert forall|j: int|
                0 <= j < nv implies r.vocabv()[j] == src.vocabv()[j] by {
                assert(r.vocab@[j]@ == src.vocab@[j]@);
            }
        }
        assert(r.wf()) by {
            assert forall|ii: int, jj: int|
                0 <= ii < jj < r.vocabv().len()
                implies r.vocabv()[ii] != r.vocabv()[jj] by {
                assert(src.vocabv()[ii] != src.vocabv()[jj]);
            }
            assert forall|f: int, g: int|
                0 <= f < g < r.point_docs@.len()
                implies r.point_docs@[f].point != r.point_docs@[g].point by {
                assert(src.point_docs@[f].point != src.point_docs@[g].point);
            }
        }
        assert forall|t: Seq<u8>, p: u32| r.member(t, p) <==> src.member(t, p) by {
            assert(r.has_token(t) == src.has_token(t));
            if src.has_token(t) {
                let k = src.tid_of(t);
                assert(src.vocabv()[k] == t);
                assert(r.vocabv()[k] == t);
                r.lemma_tid(k);
                assert(r.tid_of(t) == k);
                assert(r.posting_seq(k) == src.postings@[k]@);
            }
        }
        assert forall|p: u32| r.has_point(p) <==> src.has_point(p) by {
            if r.has_point(p) {
                let f = choose|f: int|
                    0 <= f < r.point_docs@.len() && r.point_docs@[f].point == p;
                assert(src.point_docs@[f].point == p);
            }
            if src.has_point(p) {
                let f = choose|f: int|
                    0 <= f < src.point_docs@.len() && src.point_docs@[f].point == p;
                assert(r.point_docs@[f].point == p);
                assert(r.has_point(p));
            }
        }
        assert(r.consistent()) by {
            assert forall|t: int, p: u32|
                0 <= t < r.entries@.len()
                implies ((#[trigger] r.entries@[t].ids@.contains(p))
                    <==> r.doc_has_token(p, t)) by {
                assert(r.entries@[t].ids@ == src.postings@[t]@);
                assert(src.postings@[t]@.contains(p) <==> src.doc_has_token(p, t));
                if src.doc_has_token(p, t) {
                    let e = choose|e: int|
                        0 <= e < src.point_docs@.len() && src.point_docs@[e].point == p
                            && src.point_docs@[e].token_ids@.contains(t as usize);
                    assert(r.point_docs@[e].point == p);
                    assert(r.point_docs@[e].token_ids@.contains(t as usize));
                    assert(r.doc_has_token(p, t));
                }
                if r.doc_has_token(p, t) {
                    let e = choose|e: int|
                        0 <= e < r.point_docs@.len() && r.point_docs@[e].point == p
                            && r.point_docs@[e].token_ids@.contains(t as usize);
                    assert(src.point_docs@[e].point == p);
                    assert(src.point_docs@[e].token_ids@.contains(t as usize));
                    assert(src.doc_has_token(p, t));
                }
            }
        }
        assert forall|t: Seq<u8>, p: u32|
            r.point_positions(t, p) == src.point_positions(t, p) by {
            assert(r.has_token(t) == src.has_token(t));
            assert(r.has_point(p) == src.has_point(p));
            if r.has_token(t) && r.has_point(p) {
                let k = src.tid_of(t);
                assert(src.vocabv()[k] == t);
                assert(r.vocabv()[k] == t);
                r.lemma_tid(k);
                let f = r.doc_at(p);
                assert(0 <= f < r.point_docs@.len() && r.point_docs@[f].point == p);
                assert(src.point_docs@[f].point == p);
                src.lemma_doc_at(f);
                assert(src.doc_at(p) == f);
                let dr = r.point_docs@[f];
                let ds = src.point_docs@[f];
                assert(dr.token_ids@ == ds.token_ids@);
                let fo = dr.token_ids@.index_of_first(k as usize);
                dr.token_ids@.index_of_first_ensures(k as usize);
                ds.token_ids@.index_of_first_ensures(k as usize);
                if fo is Some {
                    let j = fo->0;
                    assert(dr.positions@[j]@ == ds.positions@[j]@);
                }
            }
        }
    }
    r
}

} // verus!
