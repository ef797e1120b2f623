//! The mutable inverted index: incremental, in-memory, insert/delete capable.
//!
//! For every token the index keeps a posting list of the points whose text
//! contains it, and for every indexed point a reverse entry holding the
//! point's distinct token ids — so deletion touches only the posting lists of
//! the tokens the document actually has — together with the ascending
//! occurrence positions of each of those tokens when positions are enabled.

use vstd::prelude::*;
use crate::postings::PostingList;
use crate::postings::strictly_sorted;
use crate::tokenizer::views_of;
use crate::tokenizer::bytes_eq;

verus! {

/// The reverse entry of one indexed point: its distinct token ids, and for
/// each of them the ascending positions at which the token occurs in the
/// point's token stream.
pub struct PointDoc {
    pub point: u32,
    pub token_ids: Vec<usize>,
    pub positions: Vec<Vec<u32>>,
}

impl PointDoc {
    /// Token ids are distinct and refer into a vocabulary of `vlen` tokens;
    /// the position table runs parallel to the token ids, each row strictly
    /// ascending.
    pub open spec fn wf(&self, vlen: int) -> bool {
        &&& forall|i: int, j: int|
            0 <= i < j < self.token_ids@.len() ==> self.token_ids@[i] != self.token_ids@[j]
        &&& forall|i: int| 0 <= i < self.token_ids@.len() ==> (#[trigger] self.token_ids@[i]) < vlen
        &&& self.positions@.len() == self.token_ids@.len()
        &&& forall|i: int|
            0 <= i < self.positions@.len() ==> strictly_sorted(#[trigger] self.positions@[i]@)
    }
}

/// The mutable inverted index.
pub struct MutableInvertedIndex {
    /// Token id -> token bytes; entries are distinct.
    pub vocab: Vec<Vec<u8>>,
    /// Token id -> posting list, parallel to `vocab`.
    pub postings: Vec<PostingList>,
    /// One reverse entry per indexed point.
    pub point_docs: Vec<PointDoc>,
    /// Whether documents carry per-occurrence positions for phrase queries.
    pub positions_enabled: bool,
}

impl MutableInvertedIndex {
    /// The vocabulary as byte sequences; the token id of a token is its index.
    pub open spec fn vocabv(&self) -> Seq<Seq<u8>> {
        views_of(self.vocab@)
    }

    /// Whether token `t` has an id in this generation.
    pub open spec fn has_token(&self, t: Seq<u8>) -> bool {
        self.vocabv().contains(t)
    }

    /// The token id of `t`; meaningful only when `has_token(t)`.
    pub open spec fn tid_of(&self, t: Seq<u8>) -> int {
        choose|i: int| 0 <= i < self.vocabv().len() && self.vocabv()[i] == t
    }

    /// Whether point `p` is indexed.
    pub open spec fn has_point(&self, p: u32) -> bool {
        exists|e: int| 0 <= e < self.point_docs@.len() && self.point_docs@[e].point == p
    }

    /// The reverse-entry index of point `p`; meaningful only when `has_point(p)`.
    pub open spec fn doc_at(&self, p: u32) -> int {
        choose|e: int| 0 <= e < self.point_docs@.len() && self.point_docs@[e].point == p
    }

    /// Whether the reverse entry of point `p` holds token id `t`.
    pub open spec fn doc_has_token(&self, p: u32, t: int) -> bool {
        exists|e: int|
            0 <= e < self.point_docs@.len() && self.point_docs@[e].point == p
                && self.point_docs@[e].token_ids@.contains(t as usize)
    }

    /// Whether point `p`'s text contains token `t`.
    pub open spec fn member(&self, t: Seq<u8>, p: u32) -> bool {
        self.has_token(t) && self.postings@[self.tid_of(t)]@.contains(p)
    }

    /// The ascending positions of token `t` within point `p`'s token stream.
    pub open spec fn point_positions(&self, t: Seq<u8>, p: u32) -> Seq<u32> {
        if self.has_token(t) && self.has_point(p) {
            let d = self.point_docs@[self.doc_at(p)];
            match d.token_ids@.index_of_first(self.tid_of(t) as usize) {
                Some(j) => d.positions@[j]@,
                None => Seq::empty(),
            }
        } else {
            Seq::empty()
        }
    }

    /// The number of indexed points.
    pub open spec fn points_count(&self) -> int {
        self.point_docs@.len() as int
    }

    /// Structural well-formedness, short of postings/reverse-map agreement.
    pub open spec fn wf_core(&self) -> bool {
        &&& self.postings@.len() == self.vocab@.len()
        &&& forall|i: int, j: int|
            0 <= i < j < self.vocabv().len() ==> self.vocabv()[i] != self.vocabv()[j]
        &&& forall|t: int| 0 <= t < self.postings@.len() ==> (#[trigger] self.postings@[t]).wf()
        &&& forall|e: int, f: int|
            0 <= e < f < self.point_docs@.len()
                ==> self.point_docs@[e].point != self.point_docs@[f].point
        &&& forall|e: int|
            0 <= e < self.point_docs@.len()
                ==> (#[trigger] self.point_docs@[e]).wf(self.vocab@.len() as int)
    }

    /// A point stands in a token's posting list exactly when its reverse
    /// entry holds that token id.
    pub open spec fn consistent(&self) -> bool {
        forall|t: int, p: u32|
            0 <= t < self.postings@.len()
                ==> ((#[trigger] self.postings@[t]@.contains(p)) <==> self.doc_has_token(p, t))
    }

    /// Full well-formedness.
    pub open spec fn wf(&self) -> bool {
        self.wf_core() && self.consistent()
    }

    /// An empty index.
    pub fn new(positions_enabled: bool) -> (r: MutableInvertedIndex)
        ensures
            r.wf(),
            r.positions_enabled == positions_enabled,
            r.vocabv() =~= Seq::<Seq<u8>>::empty(),
            r.points_count() == 0,
            forall|t: Seq<u8>| !r.has_token(t),
            forall|p: u32| !r.has_point(p),
    {
        MutableInvertedIndex {
            vocab: Vec::new(),
            postings: Vec::new(),
            point_docs: Vec::new(),
            positions_enabled,
        }
    }

    /// If `t` stands in the vocabulary at index `k`, then `tid_of` picks `k`.
    pub proof fn lemma_tid(&self, k: int)
        requires
            self.wf_core(),
            0 <= k < self.vocabv().len(),
        ensures
            self.has_token(self.vocabv()[k]),
            self.tid_of(self.vocabv()[k]) == k,
    {
        let t = self.vocabv()[k];
        assert(self.vocabv().contains(t));
        let i = self.tid_of(t);
        assert(0 <= i < self.vocabv().len() && self.vocabv()[i] == t);
        if i < k {
            assert(self.vocabv()[i] != self.vocabv()[k]);
        } else if i > k {
            assert(self.vocabv()[k] != self.vocabv()[i]);
        }
    }

    /// Two states with the same vocabulary agree on token ids.
    pub proof fn lemma_tid_stable(&self, other: &Self, t: Seq<u8>)
        requires
            self.wf_core(),
            other.vocabv() == self.vocabv(),
            self.has_token(t),
        ensures
            other.has_token(t),
            other.tid_of(t) == self.tid_of(t),
    {
        let i = self.tid_of(t);
        assert(0 <= i < self.vocabv().len() && self.vocabv()[i] == t);
        assert(other.vocabv()[i] == t);
        assert(other.vocabv().contains(t));
        let j = other.tid_of(t);
        assert(0 <= j < other.vocabv().len() && other.vocabv()[j] == t);
        if i < j {
            assert(self.vocabv()[i] != self.vocabv()[j]);
        } else if j < i {
            assert(self.vocabv()[j] != self.vocabv()[i]);
        }
    }

    /// If `p` has a reverse entry at index `e`, then `doc_at` picks `e`.
    pub proof fn lemma_doc_at(&self, e: int)
        requires
            self.wf_core(),
            0 <= e < self.point_docs@.len(),
        ensures
            self.has_point(self.point_docs@[e].point),
            self.doc_at(self.point_docs@[e].point) == e,
    {
        let p = self.point_docs@[e].point;
        assert(exists|f: int| 0 <= f < self.point_docs@.len() && self.point_docs@[f].point == p);
        let f = self.doc_at(p);
        if f < e {
            assert(self.point_docs@[f].point != self.point_docs@[e].point);
        } else if f > e {
            assert(self.point_docs@[e].point != self.point_docs@[f].point);
        }
    }

    /// The id of token `t` in this generation, if any.
    pub fn token_id(&self, t: &Vec<u8>) -> (r: Option<usize>)
        requires
            self.wf_core(),
        ensures
            match r {
                Some(tid) => tid < self.vocab@.len() && self.vocabv()[tid as int] == t@
                    && self.has_token(t@) && self.tid_of(t@) == tid,
                None => !self.has_token(t@),
            },
    {
        let n = self.vocab.len();
        let mut i: usize = 0;
        while i < n
            invariant
                i <= n,
                n == self.vocab@.len(),
                self.wf_core(),
                forall|j: int| 0 <= j < i ==> self.vocabv()[j] != t@,
            decreases n - i,
        {
            if bytes_eq(&self.vocab[i], t) {
                assert(self.vocabv()[i as int] == t@);
                proof {
                    self.lemma_tid(i as int);
                }
                return Some(i);
            }
            i += 1;
        }
        proof {
            if self.has_token(t@) {
                let j = choose|j: int| 0 <= j < self.vocabv().len() && self.vocabv()[j] == t@;
                assert(self.vocabv()[j] != t@);
            }
        }
        None
    }

    /// The posting list of a token id.
    pub fn posting_list(&self, tid: usize) -> (r: &PostingList)
        requires
            tid < self.postings@.len(),
        ensures
            *r == self.postings@[tid as int],
    {
        &self.postings[tid]
    }

    /// The number of tokens in the vocabulary.
    pub fn vocab_len(&self) -> (r: usize)
        ensures
            r == self.vocab@.len(),
    {
        self.vocab.len()
    }

    /// The reverse-entry index of point `p`, if it is indexed.
    fn find_doc(&self, p: u32) -> (r: Option<usize>)
        requires
            self.wf_core(),
        ensures
            match r {
                Some(e) => e < self.point_docs@.len() && self.point_docs@[e as int].point == p,
                None => !self.has_point(p),
            },
    {
        let n = self.point_docs.len();
        let mut e: usize = 0;
        while e < n
            invariant
                e <= n,
                n == self.point_docs@.len(),
                forall|f: int| 0 <= f < e ==> self.point_docs@[f].point != p,
            decreases n - e,
        {
            if self.point_docs[e].point == p {
                return Some(e);
            }
            e += 1;
        }
        proof {
            if self.has_point(p) {
                let f = choose|f: int|
                    0 <= f < self.point_docs@.len() && self.point_docs@[f].point == p;
                assert(self.point_docs@[f].point != p);
            }
        }
        None
    }

    /// Find the id of `t`, giving it a fresh id with an empty posting list
    /// when it has none yet.
    fn get_or_add_token(&mut self, t: &Vec<u8>) -> (tid: usize)
        requires
            old(self).wf_core(),
        ensures
            final(self).wf_core(),
            tid < final(self).vocab@.len(),
            final(self).vocabv()[tid as int] == t@,
            final(self).tid_of(t@) == tid,
            final(self).has_token(t@),
            final(self).point_docs == old(self).point_docs,
            final(self).positions_enabled == old(self).positions_enabled,
            forall|k: int|
                0 <= k < old(self).vocab@.len()
                    ==> final(self).postings@[k] == old(self).postings@[k],
            forall|k: int|
                0 <= k < old(self).vocab@.len()
                    ==> final(self).vocabv()[k] == old(self).vocabv()[k],
            old(self).has_token(t@) ==> *final(self) == *old(self),
            !old(self).has_token(t@) ==> final(self).vocabv() == old(self).vocabv().push(t@)
                && tid == old(self).vocab@.len()
                && final(self).postings@[tid as int]@ =~= Seq::<u32>::empty(),
            forall|ts: Seq<u8>|
                final(self).has_token(ts) <==> (old(self).has_token(ts) || ts == t@),
    {
        let found = self.token_id(t);
        match found {
            Some(tid) => {
                assert(old(self).has_token(t@));
                tid
            },
            None => {
                let tid = self.vocab.len();
                self.vocab.push(t.clone());
                self.postings.push(PostingList::new());
                proof {
                    assert(self.vocabv() =~= old(self).vocabv().push(t@));
                    assert(self.vocabv()[tid as int] == t@);
                    assert forall|i: int, j: int|
                        0 <= i < j < self.vocabv().len()
                        implies self.vocabv()[i] != self.vocabv()[j] by {
                        if j < tid {
                        } else {
                            assert(j == tid);
                            assert(self.vocabv()[j] == t@);
                            assert(!old(self).has_token(t@));
                            if self.vocabv()[i] == t@ {
                                assert(old(self).vocabv()[i] == t@);
                                assert(old(self).vocabv().contains(t@));
                            }
                        }
                    }
                    assert(self.wf_core());
                    self.lemma_tid(tid as int);
                    assert forall|ts: Seq<u8>|
                        self.has_token(ts) <==> (old(self).has_token(ts) || ts == t@) by {
                        if self.has_token(ts) {
                            let j = choose|j: int|
                                0 <= j < self.vocabv().len() && self.vocabv()[j] == ts;
                            if j < tid {
                                assert(old(self).vocabv()[j] == ts);
                                assert(old(self).vocabv().contains(ts));
                            } else {
                                assert(ts == t@);
                            }
                        }
                        if old(self).has_token(ts) {
                            let j = choose|j: int|
                                0 <= j < old(self).vocabv().len() && old(self).vocabv()[j] == ts;
                            assert(self.vocabv()[j] == ts);
                            assert(self.vocabv().contains(ts));
                        }
                        if ts == t@ {
                            assert(self.vocabv().contains(ts));
                        }
                    }
                }
                tid
            },
        }
    }

    /// Remove point `p` from the index: after the call no posting list
    /// contains `p`, every other point is untouched, and the vocabulary is
    /// kept.  A no-op when `p` was never indexed.
    pub fn remove_document(&mut self, p: u32)
        requires
            old(self).wf(),
        ensures
            final(self).wf(),
            final(self).positions_enabled == old(self).positions_enabled,
            final(self).vocabv() == old(self).vocabv(),
            forall|t: Seq<u8>| !final(self).member(t, p),
            forall|t: Seq<u8>, q: u32|
                q != p ==> (final(self).member(t, q) <==> old(self).member(t, q)),
            forall|q: u32| final(self).has_point(q) <==> (old(self).has_point(q) && q != p),
            forall|t: Seq<u8>, q: u32|
                q != p ==> final(self).point_positions(t, q) == old(self).point_positions(t, q),
            final(self).points_count() == old(self).points_count()
                - (if old(self).has_point(p) { 1int } else { 0int }),
    {
        let found = self.find_doc(p);
        let e: usize;
        match found {
            None => {
                proof {
                    assert forall|t: Seq<u8>| !self.member(t, p) by {
                        if self.member(t, p) {
                            let tid = self.tid_of(t);
                            assert(self.postings@[tid]@.contains(p));
                            assert(self.doc_has_token(p, tid));
                            let f = choose|f: int|
                                0 <= f < self.point_docs@.len() && self.point_docs@[f].point == p
                                    && self.point_docs@[f].token_ids@.contains(tid as usize);
                            assert(self.has_point(p));
                        }
                    }
                }
                return;
            },
            Some(idx) => {
                e = idx;
            },
        }
        proof {
            self.lemma_doc_at(e as int);
            assert(old(self).has_point(p));
        }
        let ghost pre = *self;
        let doc = self.point_docs.remove(e);
        let ghost mid = *self;
        proof {
            assert(doc == pre.point_docs@[e as int]);
            assert(mid.point_docs@ =~= pre.point_docs@.remove(e as int));
            assert(mid.wf_core()) by {
                assert forall|f: int, g: int|
                    0 <= f < g < mid.point_docs@.len()
                    implies mid.point_docs@[f].point != mid.point_docs@[g].point by {
                    let f0 = if f < e as int { f } else { f + 1 };
                    let g0 = if g < e as int { g } else { g + 1 };
                    assert(mid.point_docs@[f] == pre.point_docs@[f0]);
                    assert(mid.point_docs@[g] == pre.point_docs@[g0]);
                }
                assert forall|f: int|
                    0 <= f < mid.point_docs@.len()
                    implies (#[trigger] mid.point_docs@[f]).wf(mid.vocab@.len() as int) by {
                    let f0 = if f < e as int { f } else { f + 1 };
                    assert(mid.point_docs@[f] == pre.point_docs@[f0]);
                    assert(pre.point_docs@[f0].wf(pre.vocab@.len() as int));
                }
            }
            assert(!mid.has_point(p)) by {
                if mid.has_point(p) {
                    let f = choose|f: int|
                        0 <= f < mid.point_docs@.len() && mid.point_docs@[f].point == p;
                    let f0 = if f < e as int { f } else { f + 1 };
                    assert(mid.point_docs@[f] == pre.point_docs@[f0]);
                    assert(f0 != e as int);
                    assert(pre.point_docs@[f0].point == pre.point_docs@[e as int].point);
                    assert(false);
                }
            }
            assert forall|q: u32|
                q != p implies (mid.has_point(q) <==> pre.has_point(q)) by {
                if mid.has_point(q) {
                    let f = choose|f: int|
                        0 <= f < mid.point_docs@.len() && mid.point_docs@[f].point == q;
                    let f0 = if f < e as int { f } else { f + 1 };
                    assert(pre.point_docs@[f0].point == q);
                    assert(pre.has_point(q));
                }
                if pre.has_point(q) {
                    let f = choose|f: int|
                        0 <= f < pre.point_docs@.len() && pre.point_docs@[f].point == q;
                    assert(f != e as int);
                    if f < e as int {
                        assert(mid.point_docs@[f].point == q);
                    } else {
                        assert(mid.point_docs@[f - 1].point == q);
                    }
                    assert(mid.has_point(q));
                }
            }
            assert forall|q: u32, t: int|
                q != p implies (mid.doc_has_token(q, t) <==> pre.doc_has_token(q, t)) by {
                if mid.doc_has_token(q, t) {
                    let f = choose|f: int|
                        0 <= f < mid.point_docs@.len() && mid.point_docs@[f].point == q
                            && mid.point_docs@[f].token_ids@.contains(t as usize);
                    let f0 = if f < e as int { f } else { f + 1 };
                    assert(mid.point_docs@[f] == pre.point_docs@[f0]);
                    assert(pre.doc_has_token(q, t));
                }
                if pre.doc_has_token(q, t) {
                    let f = choose|f: int|
                        0 <= f < pre.point_docs@.len() && pre.point_docs@[f].point == q
                            && pre.point_docs@[f].token_ids@.contains(t as usize);
                    assert(f != e as int);
                    if f < e as int {
                        assert(mid.point_docs@[f] == pre.point_docs@[f]);
                        assert(mid.point_docs@[f].point == q
                            && mid.point_docs@[f].token_ids@.contains(t as usize));
                    } else {
                        assert(mid.point_docs@[f - 1] == pre.point_docs@[f]);
                        assert(mid.point_docs@[f - 1].point == q
                            && mid.point_docs@[f - 1].token_ids@.contains(t as usize));
                    }
                    assert(mid.doc_has_token(q, t));
                }
            }
            assert forall|t: int|
                0 <= t < mid.postings@.len()
                implies ((#[trigger] mid.postings@[t]@.contains(p))
                    <==> doc.token_ids@.contains(t as usize)) by {
                assert(pre.postings@[t]@.contains(p) <==> pre.doc_has_token(p, t));
                if doc.token_ids@.contains(t as usize) {
                    assert(pre.point_docs@[e as int].point == p
                        && pre.point_docs@[e as int].token_ids@.contains(t as usize));
                    assert(pre.doc_has_token(p, t));
                }
                if pre.doc_has_token(p, t) {
                    let f = choose|f: int|
                        0 <= f < pre.point_docs@.len() && pre.point_docs@[f].point == p
                            && pre.point_docs@[f].token_ids@.contains(t as usize);
                    if f < e as int {
                        assert(pre.point_docs@[f].point != pre.point_docs@[e as int].point);
                        assert(false);
                    } else if f > e as int {
                        assert(pre.point_docs@[e as int].point != pre.point_docs@[f].point);
                        assert(false);
                    }
                    assert(doc.token_ids@.contains(t as usize));
                }
            }
            assert(doc.wf(mid.vocab@.len() as int));
        }
        let m = doc.token_ids.len();
        let mut i: usize = 0;
        while i < m
            invariant
                i <= m,
                m == doc.token_ids@.len(),
                self.vocab == mid.vocab,
                self.point_docs == mid.point_docs,
                self.positions_enabled == mid.positions_enabled,
                self.postings@.len() == mid.postings@.len(),
                mid.wf_core(),
                doc.wf(mid.vocab@.len() as int),
                forall|t: int| 0 <= t < self.postings@.len() ==> (#[trigger] self.postings@[t]).wf(),
                forall|t: int, q: u32|
                    0 <= t < self.postings@.len() && q != p
                        ==> ((#[trigger] self.postings@[t]@.contains(q))
                            <==> mid.postings@[t]@.contains(q)),
                forall|t: int|
                    0 <= t < self.postings@.len()
                        ==> ((#[trigger] self.postings@[t]@.contains(p))
                            <==> (doc.token_ids@.contains(t as usize)
                                && !doc.token_ids@.subrange(0, i as int).contains(t as usize))),
            decreases m - i,
        {
            let tid = doc.token_ids[i];
            proof {
                assert(doc.token_ids@[i as int] < mid.vocab@.len());
            }
            let ghost before = self.postings@;
            self.postings[tid].remove(p);
            let plen = self.postings.len();
            proof {
                assert(self.postings@.len() == plen);
                let sub1 = doc.token_ids@.subrange(0, i + 1);
                let sub0 = doc.token_ids@.subrange(0, i as int);
                assert(sub1 =~= sub0.push(tid));
                assert forall|x: usize| sub1.contains(x) <==> (sub0.contains(x) || x == tid) by {
                    if sub1.contains(x) {
                        let k = choose|k: int| 0 <= k < sub1.len() && sub1[k] == x;
                        if k < i {
                            assert(sub0[k] == x);
                            assert(sub0.contains(x));
                        }
                    }
                    if sub0.contains(x) {
                        let k = choose|k: int| 0 <= k < sub0.len() && sub0[k] == x;
                        assert(sub1[k] == x);
                        assert(sub1.contains(x));
                    }
                    if x == tid {
                        assert(sub1[i as int] == x);
                        assert(sub1.contains(x));
                    }
                }
                assert forall|t: int|
                    0 <= t < self.postings@.len()
                    implies ((#[trigger] self.postings@[t]@.contains(p))
                        <==> (doc.token_ids@.contains(t as usize) && !sub1.contains(t as usize))) by {
                    if t == tid as int {
                        assert(!self.postings@[t]@.contains(p));
                        assert(sub1.contains(t as usize));
                    } else {
                        assert(self.postings@[t] == before[t]);
                        assert(before[t]@.contains(p) <==> (doc.token_ids@.contains(t as usize)
                            && !sub0.contains(t as usize)));
                        assert((t as usize) != tid);
                        assert(sub1.contains(t as usize) <==> sub0.contains(t as usize));
                    }
                }
            }
            i += 1;
        }
        proof {
            assert(doc.token_ids@.subrange(0, m as int) =~= doc.token_ids@);
            assert forall|t: int|
                0 <= t < self.postings@.len()
                implies !(#[trigger] self.postings@[t]@.contains(p)) by {}
            assert(self.wf_core());
            assert forall|t: int, q: u32|
                0 <= t < self.postings@.len()
                implies ((#[trigger] self.postings@[t]@.contains(q))
                    <==> self.doc_has_token(q, t)) by {
                if q == p {
                    assert(!self.postings@[t]@.contains(p));
                    if self.doc_has_token(p, t) {
                        let f = choose|f: int|
                            0 <= f < self.point_docs@.len()
                                && self.point_docs@[f].point == p
                                && self.point_docs@[f].token_ids@.contains(t as usize);
                        assert(mid.has_point(p));
                        assert(false);
                    }
                } else {
                    assert(self.postings@[t]@.contains(q) <==> mid.postings@[t]@.contains(q));
                    assert(mid.postings@[t]@.contains(q) <==> pre.postings@[t]@.contains(q));
                    assert(pre.postings@[t]@.contains(q) <==> pre.doc_has_token(q, t));
                    assert(mid.doc_has_token(q, t) <==> pre.doc_has_token(q, t));
                    assert(self.doc_has_token(q, t) <==> mid.doc_has_token(q, t));
                }
            }
            assert(self.wf());
            assert(self.vocabv() == old(self).vocabv());
            assert forall|t: Seq<u8>, q: u32|
                q != p implies (self.member(t, q) <==> old(self).member(t, q)) by {
                if old(self).has_token(t) {
                    old(self).lemma_tid_stable(&*self, t);
                    let tid = old(self).tid_of(t);
                    assert(self.postings@[tid]@.contains(q)
                        <==> mid.postings@[tid]@.contains(q));
                } else {
                    assert(!self.has_token(t));
                }
            }
            assert forall|t: Seq<u8>| !self.member(t, p) by {
                if self.member(t, p) {
                    let tid = self.tid_of(t);
                    assert(self.postings@[tid]@.contains(p));
                }
            }
            assert forall|q: u32| self.has_point(q) <==> (old(self).has_point(q) && q != p) by {}
            assert forall|t: Seq<u8>, q: u32|
                q != p implies self.point_positions(t, q)
                    == old(self).point_positions(t, q) by {
                assert(self.has_token(t) == old(self).has_token(t));
                assert(self.has_point(q) <==> old(self).has_point(q));
                if self.has_token(t) && self.has_point(q) {
                    old(self).lemma_tid_stable(&*self, t);
                    let f = self.doc_at(q);
                    self.lemma_doc_at(f);
                    assert(0 <= f < self.point_docs@.len()
                        && self.point_docs@[f].point == q);
                    if f < e as int {
                        assert(self.point_docs@[f] == pre.point_docs@[f]);
                        pre.lemma_doc_at(f);
                        assert(pre.doc_at(q) == f);
                        assert(pre.point_docs@[pre.doc_at(q)] == self.point_docs@[f]);
                    } else {
                        assert(self.point_docs@[f] == pre.point_docs@[f + 1]);
                        pre.lemma_doc_at(f + 1);
                        assert(pre.doc_at(q) == f + 1);
                        assert(pre.point_docs@[pre.doc_at(q)] == self.point_docs@[f]);
                    }
                    assert(self.tid_of(t) == pre.tid_of(t));
                }
            }
        }
    }
    /// Insert (or re-insert) point `p` with the given token stream, as
    /// produced by the tokenizer: `tokens[i]` is the token at position `i`.
    /// Any prior entry for `p` is removed first, so re-insertion replaces.
    pub fn insert_document(&mut self, p: u32, tokens: &Vec<Vec<u8>>)
        requires
            old(self).wf(),
            tokens@.len() <= u32::MAX as nat,
        ensures
            final(self).wf(),
            final(self).positions_enabled == old(self).positions_enabled,
            forall|t: Seq<u8>| final(self).member(t, p) <==> views_of(tokens@).contains(t),
            forall|t: Seq<u8>, q: u32|
                q != p ==> (final(self).member(t, q) <==> old(self).member(t, q)),
            forall|t: Seq<u8>|
                final(self).has_token(t)
                    <==> (old(self).has_token(t) || views_of(tokens@).contains(t)),
            final(self).positions_enabled ==> forall|t: Seq<u8>, pos: u32|
                final(self).point_positions(t, p).contains(pos)
                    <==> (pos < tokens@.len() && views_of(tokens@)[pos as int] == t),
            forall|t: Seq<u8>, q: u32|
                q != p ==> final(self).point_positions(t, q) == old(self).point_positions(t, q),
            forall|q: u32| final(self).has_point(q) <==> (old(self).has_point(q) || q == p),
            final(self).points_count() == old(self).points_count()
                + (if old(self).has_point(p) { 0int } else { 1int }),
    {
        self.remove_document(p);
        let ghost s0 = *self;
        let ghost tokv = views_of(tokens@);
        let n = tokens.len();
        let mut tids: Vec<usize> = Vec::new();
        let mut poss: Vec<Vec<u32>> = Vec::new();
        let mut i: usize = 0;
        proof {
            assert(tokv.subrange(0, 0) =~= Seq::<Seq<u8>>::empty());
        }
        while i < n
            invariant
                i <= n,
                n == tokens@.len(),
                n <= u32::MAX,
                tokv == views_of(tokens@),
                s0.wf(),
                !s0.has_point(p),
                self.wf_core(),
                self.point_docs == s0.point_docs,
                self.positions_enabled == s0.positions_enabled,
                s0.vocab@.len() <= self.vocab@.len(),
                forall|k: int|
                    0 <= k < s0.vocab@.len()
                        ==> self.vocabv()[k] == s0.vocabv()[k],
                forall|ts: Seq<u8>|
                    self.has_token(ts)
                        <==> (s0.has_token(ts) || tokv.subrange(0, i as int).contains(ts)),
                forall|k: int, l: int| 0 <= k < l < tids@.len() ==> tids@[k] != tids@[l],
                forall|k: int| 0 <= k < tids@.len() ==> (#[trigger] tids@[k]) < self.vocab@.len(),
                forall|j: int|
                    0 <= j < i ==> self.has_token(tokv[j])
                        && tids@.contains(self.tid_of(#[trigger] tokv[j]) as usize),
                forall|k: int|
                    0 <= k < tids@.len()
                        ==> tokv.subrange(0, i as int).contains(
                            self.vocabv()[#[trigger] tids@[k] as int]),
                forall|t: int|
                    0 <= t < self.postings@.len()
                        ==> ((#[trigger] self.postings@[t]@.contains(p))
                            <==> tids@.contains(t as usize)),
                forall|t: int, q: u32|
                    0 <= t < self.postings@.len() && q != p
                        ==> ((#[trigger] self.postings@[t]@.contains(q))
                            <==> (t < s0.postings@.len() && s0.postings@[t]@.contains(q))),
                poss@.len() == tids@.len(),
                self.positions_enabled ==> forall|k: int|
                    0 <= k < poss@.len() ==> strictly_sorted(#[trigger] poss@[k]@),
                self.positions_enabled ==> forall|k: int, pos: u32|
                    0 <= k < poss@.len()
                        ==> ((#[trigger] poss@[k]@.contains(pos))
                            <==> (pos < i && tokv[pos as int]
                                == self.vocabv()[tids@[k] as int])),
                !self.positions_enabled ==> forall|k: int|
                    0 <= k < poss@.len() ==> (#[trigger] poss@[k]@).len() == 0,
            decreases n - i,
        {
            let ghost a = *self;
            let tid = self.get_or_add_token(&tokens[i]);
            let ghost b = *self;
            proof {
                assert(b.vocabv()[tid as int] == tokens@[i as int]@);
                assert(tokv[i as int] == tokens@[i as int]@);
                assert(a.postings@.len() == a.vocab@.len());
                assert(b.postings@.len() == b.vocab@.len());
                if a.has_token(tokv[i as int]) {
                    assert(b == a);
                } else {
                    assert(b.vocabv() == a.vocabv().push(tokv[i as int]));
                    assert(b.vocab@.len() == a.vocab@.len() + 1);
                    assert(tid == a.vocab@.len());
                }
                // Indexing into the grown vocabulary is stable.
                assert forall|k: int|
                    0 <= k < s0.vocab@.len()
                    implies b.vocabv()[k] == s0.vocabv()[k] by {
                    assert(a.vocabv()[k] == s0.vocabv()[k]);
                }
                assert(tokv.subrange(0, i + 1).drop_last() =~= tokv.subrange(0, i as int));
                assert(tokv.subrange(0, i + 1).last() == tokv[i as int]);
                assert forall|x: Seq<u8>|
                    tokv.subrange(0, i + 1).contains(x)
                        <==> (tokv.subrange(0, i as int).contains(x) || x == tokv[i as int]) by {
                    let s1 = tokv.subrange(0, i + 1);
                    let sA = tokv.subrange(0, i as int);
                    if s1.contains(x) {
                        let k = choose|k: int| 0 <= k < s1.len() && s1[k] == x;
                        if k < i {
                            assert(sA[k] == x);
                            assert(sA.contains(x));
                        }
                    }
                    if sA.contains(x) {
                        let k = choose|k: int| 0 <= k < sA.len() && sA[k] == x;
                        assert(s1[k] == x);
                        assert(s1.contains(x));
                    }
                    if x == tokv[i as int] {
                        assert(s1[i as int] == x);
                        assert(s1.contains(x));
                    }
                }
            }
            let found = find_in_ids(&tids, tid);
            match found {
                Some(j) => {
                    proof {
                        assert(tids@[j as int] == tid);
                        assert(a.has_token(tokv[i as int])) by {
                            assert(tokv.subrange(0, i as int)
                                .contains(a.vocabv()[tids@[j as int] as int]));
                            assert(a.has_token(a.vocabv()[tid as int])) by {
                                a.lemma_tid(tid as int);
                            }
                        }
                        assert(*self == a);
                        b.lemma_tid(tid as int);
                    }
                    if self.positions_enabled {
                        let ghost posspre = poss@;
                        poss[j].push(i as u32);
                        proof {
                            let row = posspre[j as int]@;
                            assert(poss@ =~= posspre.update(j as int, poss@[j as int]));
                            assert(poss@[j as int]@ =~= row.push(i as u32));
                            assert forall|x: u32|
                                poss@[j as int]@.contains(x)
                                    <==> (row.contains(x) || x == i as u32) by {
                                if poss@[j as int]@.contains(x) {
                                    let m = choose|m: int|
                                        0 <= m < poss@[j as int]@.len() && poss@[j as int]@[m] == x;
                                    if m < row.len() {
                                        assert(row[m] == x);
                                        assert(row.contains(x));
                                    }
                                }
                                if row.contains(x) {
                                    let m = choose|m: int|
                                        0 <= m < row.len() && row[m] == x;
                                    assert(poss@[j as int]@[m] == x);
                                    assert(poss@[j as int]@.contains(x));
                                }
                                if x == i as u32 {
                                    assert(poss@[j as int]@[row.len() as int] == x);
                                    assert(poss@[j as int]@.contains(x));
                                }
                            }
                            assert forall|k: int|
                                0 <= k < poss@.len()
                                implies strictly_sorted(#[trigger] poss@[k]@) by {
                                if k == j {
                                    assert forall|u: int, v: int|
                                        0 <= u < v < poss@[k]@.len()
                                        implies poss@[k]@[u] < poss@[k]@[v] by {
                                        assert(strictly_sorted(row));
                                        if v < row.len() {
                                            assert(poss@[k]@[u] == row[u]);
                                            assert(poss@[k]@[v] == row[v]);
                                        } else {
                                            assert(poss@[k]@[v] == i as u32);
                                            assert(poss@[k]@[u] == row[u]);
                                            assert(row.contains(row[u]));
                                            assert(posspre[j as int]@.contains(row[u]));
                                            assert(row[u] < i);
                                        }
                                    }
                                } else {
                                    assert(poss@[k] == posspre[k]);
                                    assert(strictly_sorted(posspre[k]@));
                                }
                            }
                            assert forall|k: int, pos: u32|
                                0 <= k < poss@.len()
                                implies ((#[trigger] poss@[k]@.contains(pos))
                                    <==> (pos < i + 1 && tokv[pos as int]
                                        == self.vocabv()[tids@[k] as int])) by {
                                if k == j {
                                    assert(posspre[k]@.contains(pos)
                                        <==> (pos < i && tokv[pos as int]
                                            == self.vocabv()[tids@[k] as int]));
                                    assert(tokv[i as int] == self.vocabv()[tids@[k] as int]);
                                } else {
                                    assert(poss@[k] == posspre[k]);
                                    assert(posspre[k]@.contains(pos)
                                        <==> (pos < i && tokv[pos as int]
                                            == self.vocabv()[tids@[k] as int]));
                                    if tokv[i as int] == self.vocabv()[tids@[k] as int] {
                                        // Two valid ids for one token agree.
                                        self.lemma_tid(tids@[k] as int);
                                        self.lemma_tid(tid as int);
                                        assert(tids@[k] == tid);
                                        assert(false);
                                    }
                                }
                            }
                        }
                    }
                },
                None => {
                    proof {
                        assert(tid < self.postings@.len());
                    }
                    let ghost postpre = self.postings@;
                    self.postings[tid].insert(p);
                    let plen = self.postings.len();
                    proof {
                        assert(self.postings@.len() == plen);
                        assert(self.wf_core()) by {
                            assert forall|t: int|
                                0 <= t < self.postings@.len()
                                implies (#[trigger] self.postings@[t]).wf() by {
                                if t != tid {
                                    assert(self.postings@[t] == postpre[t]);
                                }
                            }
                        }
                    }
                    let ghost tidspre = tids@;
                    let ghost posspre2 = poss@;
                    tids.push(tid);
                    let mut row: Vec<u32> = Vec::new();
                    if self.positions_enabled {
                        row.push(i as u32);
                    }
                    let ghost row2 = row;
                    poss.push(row);
                    proof {
                        assert(tids@ =~= tidspre.push(tid));
                        assert(poss@ =~= posspre2.push(row2));
                        assert(self.positions_enabled ==> row2@ =~= seq![i as u32]);
                        assert(!self.positions_enabled ==> row2@.len() == 0);
                        assert forall|x: usize|
                            tids@.contains(x) <==> (tidspre.contains(x) || x == tid) by {
                            if tids@.contains(x) {
                                let k = choose|k: int| 0 <= k < tids@.len() && tids@[k] == x;
                                if k < tidspre.len() {
                                    assert(tidspre[k] == x);
                                    assert(tidspre.contains(x));
                                }
                            }
                            if tidspre.contains(x) {
                                let k = choose|k: int| 0 <= k < tidspre.len() && tidspre[k] == x;
                                assert(tids@[k] == x);
                                assert(tids@.contains(x));
                            }
                            if x == tid {
                                assert(tids@[tidspre.len() as int] == x);
                                assert(tids@.contains(x));
                            }
                        }
                        b.lemma_tid(tid as int);
                        assert forall|t: int|
                            0 <= t < self.postings@.len()
                            implies ((#[trigger] self.postings@[t]@.contains(p))
                                <==> tids@.contains(t as usize)) by {
                            if t == tid as int {
                                assert(self.postings@[t]@.contains(p));
                            } else {
                                assert(self.postings@[t] == postpre[t]);
                                if t < a.postings@.len() {
                                    assert(postpre[t] == a.postings@[t]);
                                } else {
                                    assert(postpre[t]@ =~= Seq::<u32>::empty());
                                }
                                assert((t as usize) != tid);
                            }
                        }
                        assert forall|t: int, q: u32|
                            0 <= t < self.postings@.len() && q != p
                            implies ((#[trigger] self.postings@[t]@.contains(q))
                                <==> (t < s0.postings@.len() && s0.postings@[t]@.contains(q))) by {
                            if t == tid as int {
                                assert(self.postings@[t]@.contains(q)
                                    <==> postpre[t]@.contains(q));
                            } else {
                                assert(self.postings@[t] == postpre[t]);
                            }
                            if t >= a.postings@.len() {
                                assert(postpre[t]@ =~= Seq::<u32>::empty());
                            }
                        }
                        // The new row holds position i alone; older occurrences of
                        // this token would have put its id into `tids` already.
                        assert forall|k: int|
                            0 <= k < poss@.len()
                            implies strictly_sorted(#[trigger] poss@[k]@) by {
                            if k < tidspre.len() {
                                assert(poss@[k] == posspre2[k]);
                                assert(strictly_sorted(posspre2[k]@));
                            } else {
                                assert(poss@[k] == row2);
                            }
                        }
                        if self.positions_enabled {
                            assert forall|k: int, pos: u32|
                                0 <= k < poss@.len()
                                implies ((#[trigger] poss@[k]@.contains(pos))
                                    <==> (pos < i + 1 && tokv[pos as int]
                                        == self.vocabv()[tids@[k] as int])) by {
                                if k < tidspre.len() {
                                    assert(tids@[k] == tidspre[k]);
                                    assert(poss@[k] == posspre2[k]);
                                    assert(posspre2[k]@.contains(pos)
                                        <==> (pos < i && tokv[pos as int]
                                            == self.vocabv()[tids@[k] as int]));
                                    if tokv[i as int] == self.vocabv()[tids@[k] as int] {
                                        self.lemma_tid(tids@[k] as int);
                                        self.lemma_tid(tid as int);
                                        assert(tids@[k] == tid);
                                        assert(tidspre.contains(tid));
                                        assert(false);
                                    }
                                } else {
                                    assert(k == tidspre.len());
                                    assert(tids@[k] == tid);
                                    assert(poss@[k]@ =~= seq![i as u32]);
                                    assert(tokv[i as int] == self.vocabv()[tid as int]);
                                    if poss@[k]@.contains(pos) {
                                        let m = choose|m: int|
                                            0 <= m < poss@[k]@.len() && poss@[k]@[m] == pos;
                                        assert(pos == i as u32);
                                    }
                                    if pos < i && tokv[pos as int]
                                        == self.vocabv()[tid as int] {
                                        assert(a.has_token(tokv[pos as int]));
                                        assert(tidspre.contains(
                                            a.tid_of(tokv[pos as int]) as usize));
                                        let at = a.tid_of(tokv[pos as int]);
                                        assert(a.vocabv()[at] == tokv[pos as int]);
                                        assert(self.vocabv()[at] == a.vocabv()[at]);
                                        self.lemma_tid(at);
                                        self.lemma_tid(tid as int);
                                        assert(at == tid as int);
                                        assert(false);
                                    }
                                    if pos == i as u32 {
                                        assert(poss@[k]@[0] == pos);
                                        assert(poss@[k]@.contains(pos));
                                    }
                                }
                            }
                        } else {
                            assert forall|k: int|
                                0 <= k < poss@.len()
                                implies (#[trigger] poss@[k]@).len() == 0 by {
                                if k < tidspre.len() {
                                    assert(poss@[k] == posspre2[k]);
                                } else {
                                    assert(poss@[k] == row2);
                                }
                            }
                        }
                    }
                },
            }
            proof {
                // Token-id facts survive the step for already-processed tokens.
                assert forall|j: int|
                    0 <= j < i + 1 implies self.has_token(tokv[j])
                        && tids@.contains(self.tid_of(#[trigger] tokv[j]) as usize) by {
                    if j < i {
                        assert(a.has_token(tokv[j]));
                        let at = a.tid_of(tokv[j]);
                        assert(a.vocabv()[at] == tokv[j]);
                        assert(self.vocabv()[at] == tokv[j]) by {
                            if at < s0.vocab@.len() {
                            } else {
                                assert(a.vocabv()[at] == s0.vocabv()[at]
                                    || a.vocabv()[at] == a.vocabv()[at]);
                            }
                        }
                        self.lemma_tid(at);
                        assert(self.tid_of(tokv[j]) == at);
                    } else {
                        b.lemma_tid(tid as int);
                        assert(self.tid_of(tokv[j]) == tid);
                        assert(tids@.contains(tid));
                    }
                }
                assert forall|k: int|
                    0 <= k < tids@.len()
                    implies tokv.subrange(0, i + 1).contains(
                        self.vocabv()[#[trigger] tids@[k] as int]) by {
                    if k < tids@.len() && tokv.subrange(0, i as int).contains(
                        self.vocabv()[tids@[k] as int]) {
                    } else {
                        assert(self.vocabv()[tids@[k] as int] == tokv[i as int]);
                    }
                }
            }
            i += 1;
        }
        proof {
            assert(tokv.subrange(0, n as int) =~= tokv);
        }
        let ghost sl = *self;
        let ghost tidsv = tids@;
        let ghost possv = poss@;
        self.point_docs.push(PointDoc { point: p, token_ids: tids, positions: poss });
        let plen2 = self.postings.len();
        proof {
            assert(self.postings@.len() == plen2);
            let ghost ei = sl.point_docs@.len() as int;
            assert(self.point_docs@.len() == ei + 1);
            assert(self.point_docs@[ei].point == p);
            assert(self.point_docs@[ei].token_ids@ == tidsv);
            assert(self.point_docs@[ei].positions@ == possv);
            assert forall|f: int| 0 <= f < ei implies self.point_docs@[f] == sl.point_docs@[f] by {}
            // Well-formedness of the grown reverse map.
            assert(self.vocab == sl.vocab);
            assert(self.vocabv() == sl.vocabv());
            assert forall|ii: int, jj: int|
                0 <= ii < jj < self.vocabv().len()
                implies self.vocabv()[ii] != self.vocabv()[jj] by {
                assert(sl.vocabv()[ii] != sl.vocabv()[jj]);
            }
            assert(self.wf_core()) by {
                assert forall|f: int, g: int|
                    0 <= f < g < self.point_docs@.len()
                    implies self.point_docs@[f].point != self.point_docs@[g].point by {
                    if g == ei {
                        if self.point_docs@[f].point == p {
                            assert(s0.point_docs@[f].point == p);
                            assert(s0.has_point(p));
                        }
                    }
                }
                assert forall|f: int|
                    0 <= f < self.point_docs@.len()
                    implies (#[trigger] self.point_docs@[f]).wf(self.vocab@.len() as int) by {
                    if f < ei {
                        let d = self.point_docs@[f];
                        assert(d == s0.point_docs@[f]);
                        assert(d.wf(s0.vocab@.len() as int));
                        assert(s0.vocab@.len() <= self.vocab@.len());
                        assert forall|k: int|
                            0 <= k < d.token_ids@.len()
                            implies (#[trigger] d.token_ids@[k]) < self.vocab@.len() as int by {
                            assert(d.token_ids@[k] < s0.vocab@.len());
                        }
                    } else {
                        let d = self.point_docs@[f];
                        assert(d.token_ids@ == tidsv);
                        assert(d.positions@ == possv);
                        assert forall|k: int, l: int|
                            0 <= k < l < d.token_ids@.len()
                            implies d.token_ids@[k] != d.token_ids@[l] by {
                            assert(tidsv[k] != tidsv[l]);
                        }
                        assert forall|k: int|
                            0 <= k < d.token_ids@.len()
                            implies (#[trigger] d.token_ids@[k]) < self.vocab@.len() as int by {
                            assert(tidsv[k] < sl.vocab@.len());
                        }
                        assert(d.positions@.len() == d.token_ids@.len());
                        assert forall|k: int|
                            0 <= k < d.positions@.len()
                            implies strictly_sorted(#[trigger] d.positions@[k]@) by {
                            if self.positions_enabled {
                                assert(strictly_sorted(possv[k]@));
                            } else {
                                assert(possv[k]@.len() == 0);
                            }
                        }
                        assert(d.wf(self.vocab@.len() as int));
                    }
                }
            }
            assert forall|q: u32| self.has_point(q) <==> (s0.has_point(q) || q == p) by {
                if self.has_point(q) {
                    let f = choose|f: int|
                        0 <= f < self.point_docs@.len() && self.point_docs@[f].point == q;
                    if f < ei {
                        assert(s0.point_docs@[f].point == q);
                        assert(s0.has_point(q));
                    } else {
                        assert(q == p);
                    }
                }
                if s0.has_point(q) {
                    let f = choose|f: int|
                        0 <= f < s0.point_docs@.len() && s0.point_docs@[f].point == q;
                    assert(self.point_docs@[f].point == q);
                    assert(self.has_point(q));
                }
                if q == p {
                    assert(self.point_docs@[ei].point == q);
                    assert(self.has_point(q));
                }
            }
            // The reverse map and the postings agree again.
            assert forall|t: int, q: u32|
                0 <= t < self.postings@.len()
                implies ((#[trigger] self.postings@[t]@.contains(q))
                    <==> self.doc_has_token(q, t)) by {
                if q == p {
                    assert(self.postings@[t]@.contains(p) <==> tidsv.contains(t as usize));
                    if tidsv.contains(t as usize) {
                        assert(self.point_docs@[ei].point == p
                            && self.point_docs@[ei].token_ids@.contains(t as usize));
                        assert(self.doc_has_token(p, t));
                    }
                    if self.doc_has_token(p, t) {
                        let f = choose|f: int|
                            0 <= f < self.point_docs@.len() && self.point_docs@[f].point == p
                                && self.point_docs@[f].token_ids@.contains(t as usize);
                        if f < ei {
                            assert(s0.point_docs@[f].point == p);
                            assert(s0.has_point(p));
                            assert(false);
                        }
                        assert(tidsv.contains(t as usize));
                    }
                } else {
                    if t < s0.postings@.len() {
                        assert(s0.postings@[t]@.contains(q) <==> s0.doc_has_token(q, t));
                    }
                    if self.doc_has_token(q, t) {
                        let f = choose|f: int|
                            0 <= f < self.point_docs@.len() && self.point_docs@[f].point == q
                                && self.point_docs@[f].token_ids@.contains(t as usize);
                        assert(f < ei);
                        assert(s0.point_docs@[f] == self.point_docs@[f]);
                        assert(s0.doc_has_token(q, t));
                        assert(s0.point_docs@[f].wf(s0.vocab@.len() as int));
                        assert(s0.point_docs@[f].token_ids@.contains(t as usize));
                        let m = choose|m: int|
                            0 <= m < s0.point_docs@[f].token_ids@.len()
                                && s0.point_docs@[f].token_ids@[m] == t as usize;
                        assert(s0.point_docs@[f].token_ids@[m] < s0.vocab@.len());
                        assert(t < s0.postings@.len());
                    }
                    if t < s0.postings@.len() && s0.doc_has_token(q, t) {
                        let f = choose|f: int|
                            0 <= f < s0.point_docs@.len() && s0.point_docs@[f].point == q
                                && s0.point_docs@[f].token_ids@.contains(t as usize);
                        assert(self.point_docs@[f] == s0.point_docs@[f]);
                        assert(self.doc_has_token(q, t));
                    }
                }
            }
            assert(self.wf());
            // Point p's membership is exactly the inserted token set.
            assert forall|t: Seq<u8>| self.member(t, p) <==> tokv.contains(t) by {
                if tokv.contains(t) {
                    let j = choose|j: int| 0 <= j < tokv.len() && tokv[j] == t;
                    assert(sl.has_token(tokv[j])
                        && tidsv.contains(sl.tid_of(tokv[j]) as usize));
                    let tidp = sl.tid_of(t);
                    assert(sl.vocabv()[tidp] == t);
                    assert(self.vocabv() == sl.vocabv());
                    self.lemma_tid(tidp);
                    assert(self.tid_of(t) == tidp);
                    assert(sl.postings@[tidp]@.contains(p));
                    assert(self.postings@[tidp]@.contains(p));
                }
                if self.member(t, p) {
                    let tid2 = self.tid_of(t);
                    assert(self.postings@[tid2]@.contains(p));
                    assert(sl.postings@[tid2]@.contains(p));
                    assert(tidsv.contains(tid2 as usize));
                    let k = choose|k: int| 0 <= k < tidsv.len() && tidsv[k] == tid2 as usize;
                    assert(tokv.subrange(0, n as int).contains(
                        sl.vocabv()[tidsv[k] as int]));
                    assert(self.vocabv()[tid2] == t);
                }
            }
            // Membership of every other point is untouched.
            assert forall|t: Seq<u8>, q: u32|
                q != p implies (self.member(t, q) <==> s0.member(t, q)) by {
                if s0.has_token(t) {
                    let k = s0.tid_of(t);
                    assert(s0.vocabv()[k] == t);
                    assert(self.vocabv()[k] == t);
                    self.lemma_tid(k);
                    assert(self.tid_of(t) == k);
                    assert(self.postings@[k]@.contains(q)
                        <==> (k < s0.postings@.len() && s0.postings@[k]@.contains(q)));
                } else {
                    assert(!s0.member(t, q));
                    if self.has_token(t) {
                        let tid2 = self.tid_of(t);
                        assert(self.vocabv()[tid2] == t);
                        if tid2 < s0.vocab@.len() {
                            assert(s0.vocabv()[tid2] == t);
                            assert(s0.has_token(t));
                            assert(false);
                        }
                        assert(self.postings@[tid2]@.contains(q)
                            <==> (tid2 < s0.postings@.len() && s0.postings@[tid2]@.contains(q)));
                        assert(!self.postings@[tid2]@.contains(q));
                    }
                }
            }
            // The vocabulary grew by exactly the inserted tokens.
            assert forall|t: Seq<u8>|
                self.has_token(t) <==> (s0.has_token(t) || tokv.contains(t)) by {
                assert(sl.has_token(t)
                    <==> (s0.has_token(t) || tokv.subrange(0, n as int).contains(t)));
            }
            // Positions of p are the occurrence indices of each token.
            if self.positions_enabled {
                assert forall|t: Seq<u8>, pos: u32|
                    self.point_positions(t, p).contains(pos)
                        <==> (pos < n && tokv[pos as int] == t) by {
                    self.lemma_doc_at(ei);
                    assert(self.doc_at(p) == ei);
                    let d = self.point_docs@[ei];
                    if self.has_token(t) {
                        let tid2 = self.tid_of(t);
                        assert(self.vocabv()[tid2] == t);
                        let fo = d.token_ids@.index_of_first(tid2 as usize);
                        d.token_ids@.index_of_first_ensures(tid2 as usize);
                        if fo is Some {
                            let j = fo->0;
                            assert(tidsv[j] == tid2 as usize);
                            assert(possv[j]@.contains(pos)
                                <==> (pos < n && tokv[pos as int]
                                    == sl.vocabv()[tidsv[j] as int]));
                            assert(sl.vocabv()[tid2] == t);
                            assert(self.point_positions(t, p) == possv[j]@);
                        } else {
                            assert(!tidsv.contains(tid2 as usize));
                            assert(self.point_positions(t, p) =~= Seq::<u32>::empty());
                            if pos < n && tokv[pos as int] == t {
                                assert(sl.has_token(tokv[pos as int])
                                    && tidsv.contains(sl.tid_of(tokv[pos as int]) as usize));
                                let at = sl.tid_of(t);
                                assert(sl.vocabv()[at] == t);
                                self.lemma_tid(at);
                                assert(at == tid2);
                                assert(false);
                            }
                        }
                    } else {
                        assert(self.point_positions(t, p) =~= Seq::<u32>::empty());
                        if pos < n && tokv[pos as int] == t {
                            assert(sl.has_token(tokv[pos as int]));
                            assert(self.has_token(t));
                            assert(false);
                        }
                    }
                }
            }
            // Positions of every other point are untouched.
            assert forall|t: Seq<u8>, q: u32|
                q != p implies self.point_positions(t, q) == s0.point_positions(t, q) by {
                assert(self.has_point(q) <==> s0.has_point(q));
                if self.has_point(q) && self.has_token(t) {
                    let f = choose|f: int|
                        0 <= f < s0.point_docs@.len() && s0.point_docs@[f].point == q;
                    assert(self.point_docs@[f] == s0.point_docs@[f]);
                    self.lemma_doc_at(f);
                    s0.lemma_doc_at(f);
                    let d = s0.point_docs@[f];
                    assert(d.wf(s0.vocab@.len() as int));
                    if s0.has_token(t) {
                        let k = s0.tid_of(t);
                        assert(s0.vocabv()[k] == t);
                        assert(self.vocabv()[k] == t);
                        self.lemma_tid(k);
                        assert(self.tid_of(t) == k);
                    } else {
                        let tid2 = self.tid_of(t);
                        assert(self.vocabv()[tid2] == t);
                        if tid2 < s0.vocab@.len() {
                            assert(s0.vocabv()[tid2] == t);
                            assert(false);
                        }
                        let fo = d.token_ids@.index_of_first(tid2 as usize);
                        d.token_ids@.index_of_first_ensures(tid2 as usize);
                        if fo is Some {
                            let j = fo->0;
                            assert(d.token_ids@.contains(tid2 as usize));
                            let m = choose|m: int|
                                0 <= m < d.token_ids@.len()
                                    && d.token_ids@[m] == tid2 as usize;
                            assert(d.token_ids@[m] < s0.vocab@.len());
                            assert(false);
                        }
                        assert(self.point_positions(t, q) =~= Seq::<u32>::empty());
                        assert(s0.point_positions(t, q) =~= Seq::<u32>::empty());
                    }
                } else {
                    assert(self.point_positions(t, q) =~= Seq::<u32>::empty());
                    if s0.has_token(t) {
                        let k = s0.tid_of(t);
                        assert(s0.vocabv()[k] == t);
                        assert(self.vocabv()[k] == t);
                        assert(self.has_token(t));
                    }
                    assert(s0.point_positions(t, q) =~= Seq::<u32>::empty());
                }
            }
        }
    }
}

impl MutableInvertedIndex {
    /// The ascending positions of token `t` within point `p`'s token stream,
    /// as plain values; empty when the token or the point is unknown.
    pub fn positions(&self, t: &Vec<u8>, p: u32) -> (r: Vec<u32>)
        requires
            self.wf(),
        ensures
            r@ == self.point_positions(t@, p),
    {
        let tid_opt = self.token_id(t);
        let tid: usize;
        match tid_opt {
            None => {
                proof {
                    assert(self.point_positions(t@, p) =~= Seq::<u32>::empty());
                }
                return Vec::new();
            },
            Some(x) => {
                tid = x;
            },
        }
        let e_opt = self.find_doc(p);
        let e: usize;
        match e_opt {
            None => {
                proof {
                    assert(self.point_positions(t@, p) =~= Seq::<u32>::empty());
                }
                return Vec::new();
            },
            Some(x) => {
                e = x;
            },
        }
        proof {
            self.lemma_doc_at(e as int);
        }
        let d = &self.point_docs[e];
        let j_opt = crate::mutable_index::find_in_ids(&d.token_ids, tid);
        match j_opt {
            None => {
                proof {
                    d.token_ids@.index_of_first_ensures(tid);
                    assert(self.point_positions(t@, p) =~= Seq::<u32>::empty());
                }
                Vec::new()
            },
            Some(j) => {
                proof {
                    d.token_ids@.index_of_first_ensures(tid);
                    assert(d.token_ids@.contains(tid));
                    let f = d.token_ids@.index_of_first(tid)->0;
                    assert(d.token_ids@[f] == tid);
                    if f < j as int {
                        assert(d.token_ids@[f] != d.token_ids@[j as int]);
                    } else if f > j as int {
                        assert(d.token_ids@[j as int] != d.token_ids@[f]);
                    }
                    assert(f == j as int);
                }
                crate::postings::clone_u32s(&d.positions[j])
            },
        }
    }
}

/// The index of `tid` in `ids`, if present.
pub(crate) fn find_in_ids(ids: &Vec<usize>, tid: usize) -> (r: Option<usize>)
    ensures
        match r {
            Some(j) => j < ids@.len() && ids@[j as int] == tid,
            None => !ids@.contains(tid),
        },
{
    let n = ids.len();
    let mut j: usize = 0;
    while j < n
        invariant
            j <= n,
            n == ids@.len(),
            forall|k: int| 0 <= k < j ==> ids@[k] != tid,
        decreases n - j,
    {
        if ids[j] == tid {
            return Some(j);
        }
        j += 1;
    }
    proof {
        if ids@.contains(tid) {
            let k = choose|k: int| 0 <= k < ids@.len() && ids@[k] == tid;
            assert(ids@[k] != tid);
        }
    }
    None
}

} // verus!
