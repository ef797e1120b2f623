//! Query execution and cardinality estimation over any index backend.
//!
//! A conjunction of tokens is answered by intersecting posting lists,
//! starting from the shortest list so that work is bounded by the most
//! selective term; a phrase query additionally verifies, per surviving
//! point, that the tokens' positions occur consecutively in order.  The
//! estimator returns (min, max) bounds without running the full query.

use vstd::prelude::*;
use crate::postings::PostingList;
use crate::postings::strictly_sorted;
use crate::postings::lemma_sorted_unique;
use crate::postings::lemma_sorted_subset_len;
use crate::postings::clone_u32s;
use crate::postings::contains_u32;
use crate::mutable_index::MutableInvertedIndex;
use crate::immutable_index::ImmutableInvertedIndex;
use crate::tokenizer::views_of;

verus! {

/// The resource-accounting handle threaded through every query path: a
/// pass-through cost tally owned by the caller, never global state.
pub struct HardwareCounter {
    pub cost: usize,
}

impl HardwareCounter {
    pub fn new() -> (r: HardwareCounter)
        ensures
            r.cost == 0,
    {
        HardwareCounter { cost: 0 }
    }

    /// Charge `c` cost units, saturating at the counter's capacity.
    pub fn charge(&mut self, c: usize)
        ensures
            final(self).cost >= old(self).cost,
            old(self).cost + c <= usize::MAX ==> final(self).cost == old(self).cost + c,
    {
        self.cost = self.cost.saturating_add(c);
    }
}

/// One capability set over the index backends: the live mutable generation
/// and the frozen immutable one (a reloaded image opens as the frozen form).
pub enum IndexBackend {
    Mutable(MutableInvertedIndex),
    Immutable(ImmutableInvertedIndex),
}

impl IndexBackend {
    pub open spec fn wf(&self) -> bool {
        match self {
            IndexBackend::Mutable(m) => m.wf(),
            IndexBackend::Immutable(im) => im.wf(),
        }
    }

    pub open spec fn positions_enabled(&self) -> bool {
        match self {
            IndexBackend::Mutable(m) => m.positions_enabled,
            IndexBackend::Immutable(im) => im.positions_enabled,
        }
    }

    pub open spec fn has_token(&self, t: Seq<u8>) -> bool {
        match self {
            IndexBackend::Mutable(m) => m.has_token(t),
            IndexBackend::Immutable(im) => im.has_token(t),
        }
    }

    /// The posting ids of token `t`; empty when the token is unknown.
    pub open spec fn posting_seq(&self, t: Seq<u8>) -> Seq<u32> {
        match self {
            IndexBackend::Mutable(m) => if m.has_token(t) {
                m.postings@[m.tid_of(t)]@
            } else {
                Seq::empty()
            },
            IndexBackend::Immutable(im) => if im.has_token(t) {
                im.posting_seq(im.tid_of(t))
            } else {
                Seq::empty()
            },
        }
    }

    /// Whether point `p`'s text contains token `t`.
    pub open spec fn member(&self, t: Seq<u8>, p: u32) -> bool {
        match self {
            IndexBackend::Mutable(m) => m.member(t, p),
            IndexBackend::Immutable(im) => im.member(t, p),
        }
    }

    pub open spec fn point_positions(&self, t: Seq<u8>, p: u32) -> Seq<u32> {
        match self {
            IndexBackend::Mutable(m) => m.point_positions(t, p),
            IndexBackend::Immutable(im) => im.point_positions(t, p),
        }
    }

    pub open spec fn points_count(&self) -> int {
        match self {
            IndexBackend::Mutable(m) => m.points_count(),
            IndexBackend::Immutable(im) => im.points_count(),
        }
    }

    /// Postings and the reverse map agree (the mutable generation holds
    /// this as part of well-formedness; the frozen one is held to it when
    /// built or loaded).
    pub open spec fn cross_consistent(&self) -> bool {
        match self {
            IndexBackend::Mutable(m) => m.consistent(),
            IndexBackend::Immutable(im) => im.consistent(),
        }
    }

    /// Membership in the index is membership in the token's posting list,
    /// and every posting list is strictly ascending.
    pub proof fn lemma_member_posting(&self, t: Seq<u8>)
        requires
            self.wf(),
        ensures
            strictly_sorted(self.posting_seq(t)),
            forall|p: u32| self.member(t, p) <==> self.posting_seq(t).contains(p),
    {
        match self {
            IndexBackend::Mutable(m) => {
                if m.has_token(t) {
                    let k = m.tid_of(t);
                    assert(0 <= k < m.vocabv().len());
                    assert(m.postings@[k].wf());
                }
            },
            IndexBackend::Immutable(im) => {
                if im.has_token(t) {
                    let k = im.tid_of(t);
                    assert(0 <= k < im.vocabv().len());
                    assert(im.entries@[k].wf());
                }
            },
        }
    }

    /// The posting ids of `t`, decoded to plain values.
    pub fn posting_ids(&self, t: &Vec<u8>) -> (r: Vec<u32>)
        requires
            self.wf(),
        ensures
            r@ == self.posting_seq(t@),
            strictly_sorted(r@),
    {
        match self {
            IndexBackend::Mutable(m) => {
                match m.token_id(t) {
                    Some(tid) => {
                        let pl = m.posting_list(tid);
                        assert(pl.wf());
                        clone_u32s(&pl.ids)
                    },
                    None => {
                        proof {
                            assert(Seq::<u32>::empty() =~= self.posting_seq(t@));
                        }
                        Vec::new()
                    },
                }
            },
            IndexBackend::Immutable(im) => {
                match im.token_id(t) {
                    Some(tid) => im.decoded_posting(tid),
                    None => {
                        proof {
                            assert(Seq::<u32>::empty() =~= self.posting_seq(t@));
                        }
                        Vec::new()
                    },
                }
            },
        }
    }

    /// The length of `t`'s posting list without decoding it.
    pub fn posting_len(&self, t: &Vec<u8>) -> (r: usize)
        requires
            self.wf(),
        ensures
            r == self.posting_seq(t@).len(),
    {
        match self {
            IndexBackend::Mutable(m) => {
                match m.token_id(t) {
                    Some(tid) => m.posting_list(tid).len(),
                    None => 0,
                }
            },
            IndexBackend::Immutable(im) => {
                match im.token_id(t) {
                    Some(tid) => im.posting_count(tid),
                    None => 0,
                }
            },
        }
    }

    /// Whether token `t` has an id in this generation.
    pub fn token_known(&self, t: &Vec<u8>) -> (r: bool)
        requires
            self.wf(),
        ensures
            r == self.has_token(t@),
    {
        match self {
            IndexBackend::Mutable(m) => m.token_id(t).is_some(),
            IndexBackend::Immutable(im) => im.token_id(t).is_some(),
        }
    }


    /// The number of tokens in this generation's vocabulary.
    pub open spec fn vocab_size(&self) -> int {
        match self {
            IndexBackend::Mutable(m) => m.vocab@.len() as int,
            IndexBackend::Immutable(im) => im.vocab@.len() as int,
        }
    }

    /// The vocabulary as byte sequences; a token's id is its index.
    pub open spec fn vocab_tokens(&self) -> Seq<Seq<u8>> {
        match self {
            IndexBackend::Mutable(m) => m.vocabv(),
            IndexBackend::Immutable(im) => im.vocabv(),
        }
    }

    pub fn vocab_count(&self) -> (r: usize)
        ensures
            r == self.vocab_size(),
    {
        match self {
            IndexBackend::Mutable(m) => m.vocab_len(),
            IndexBackend::Immutable(im) => im.vocab.len(),
        }
    }

    /// The bytes of the token with id `i`.
    pub fn token_bytes(&self, i: usize) -> (r: Vec<u8>)
        requires
            self.wf(),
            i < self.vocab_size(),
        ensures
            r@ == self.vocab_tokens()[i as int],
            self.has_token(r@),
    {
        match self {
            IndexBackend::Mutable(m) => {
                let w = m.vocab[i].clone();
                proof {
                    assert(w@ == m.vocabv()[i as int]);
                    assert(m.vocabv().contains(w@));
                }
                w
            },
            IndexBackend::Immutable(im) => {
                let w = im.vocab[i].clone();
                proof {
                    assert(w@ == im.vocabv()[i as int]);
                    assert(im.vocabv().contains(w@));
                }
                w
            },
        }
    }

    /// The ascending positions of token `t` within point `p`.
    pub fn positions_of(&self, t: &Vec<u8>, p: u32) -> (r: Vec<u32>)
        requires
            self.wf(),
        ensures
            r@ == self.point_positions(t@, p),
    {
        match self {
            IndexBackend::Mutable(m) => m.positions(t, p),
            IndexBackend::Immutable(im) => im.positions(t, p),
        }
    }
}

/// Point `p` matches the conjunction of tokens `ts`.
pub open spec fn matches_and(ix: &IndexBackend, ts: Seq<Seq<u8>>, p: u32) -> bool {
    forall|j: int| 0 <= j < ts.len() ==> ix.member(ts[j], p)
}

/// Whether the tokens occur as a phrase in point `p` starting at position `s`.
pub open spec fn phrase_at(ix: &IndexBackend, ts: Seq<Seq<u8>>, p: u32, s: int) -> bool {
    0 <= s && s + ts.len() - 1 <= u32::MAX
        && (forall|j: int| 0 <= j < ts.len() ==> ix.point_positions(ts[j], p).contains((s + j) as u32))
}

/// Point `p` matches `ts` as a phrase: it matches the conjunction, and some
/// start position `s` has token `j` occurring at position `s + j` for all `j`.
pub open spec fn matches_phrase(ix: &IndexBackend, ts: Seq<Seq<u8>>, p: u32) -> bool {
    &&& ts.len() > 0
    &&& matches_and(ix, ts, p)
    &&& exists|s: int| phrase_at(ix, ts, p, s)
}

/// Execute a conjunctive (AND) query: the result is the strictly ascending
/// list of exactly the points that contain every token.  An empty token
/// list, like an unknown token, matches no point.  Work starts from the
/// shortest posting list; the counter is charged for each list touched.
pub fn query_and(ix: &IndexBackend, tokens: &Vec<Vec<u8>>, hw: &mut HardwareCounter) -> (r: Vec<u32>)
    requires
        ix.wf(),
    ensures
        strictly_sorted(r@),
        tokens@.len() == 0 ==> r@.len() == 0,
        tokens@.len() > 0 ==> forall|p: u32|
            r@.contains(p) <==> matches_and(ix, views_of(tokens@), p),
        final(hw).cost >= old(hw).cost,
{
    let ghost tokv = views_of(tokens@);
    let n = tokens.len();
    if n == 0 {
        return Vec::new();
    }
    // Pick the token with the shortest posting list as the seed.
    let mut best: usize = 0;
    let mut best_len: usize = ix.posting_len(&tokens[0]);
    let mut j: usize = 1;
    while j < n
        invariant
            1 <= j <= n,
            n == tokens@.len(),
            ix.wf(),
            tokv == views_of(tokens@),
            best < n,
            best_len == ix.posting_seq(tokv[best as int]).len(),
        decreases n - j,
    {
        let l = ix.posting_len(&tokens[j]);
        if l < best_len {
            best = j;
            best_len = l;
        }
        j += 1;
    }
    hw.charge(best_len);
    let seed = ix.posting_ids(&tokens[best]);
    let mut acc = PostingList { ids: seed };
    proof {
        ix.lemma_member_posting(tokv[best as int]);
        assert(acc.wf());
    }
    let mut j2: usize = 0;
    while j2 < n
        invariant
            j2 <= n,
            n == tokens@.len(),
            ix.wf(),
            tokv == views_of(tokens@),
            best < n,
            acc.wf(),
            hw.cost >= old(hw).cost,
            forall|p: u32|
                acc@.contains(p) <==> (ix.member(tokv[best as int], p)
                    && (forall|l: int| 0 <= l < j2 ==> ix.member(tokv[l], p))),
        decreases n - j2,
    {
        let ghost accpre = acc@;
        let other_ids = ix.posting_ids(&tokens[j2]);
        hw.charge(other_ids.len());
        let other = PostingList { ids: other_ids };
        proof {
            ix.lemma_member_posting(tokv[j2 as int]);
            assert(other.wf());
        }
        let next = acc.intersect(&other);
        acc = next;
        proof {
            assert forall|p: u32|
                acc@.contains(p) <==> (ix.member(tokv[best as int], p)
                    && (forall|l: int| 0 <= l < j2 + 1 ==> ix.member(tokv[l], p))) by {
                assert(acc@.contains(p) <==> (accpre.contains(p) && other@.contains(p)));
                assert(other@.contains(p) <==> ix.member(tokv[j2 as int], p));
                if accpre.contains(p) && other@.contains(p) {
                    assert forall|l: int| 0 <= l < j2 + 1 implies ix.member(tokv[l], p) by {
                        if l < j2 {
                        } else {
                            assert(l == j2);
                        }
                    }
                }
            }
        }
        j2 += 1;
    }
    proof {
        assert forall|p: u32|
            acc@.contains(p) <==> matches_and(ix, tokv, p) by {
            if matches_and(ix, tokv, p) {
                assert(ix.member(tokv[best as int], p));
            }
        }
    }
    acc.ids
}

/// The (min, max) bound on the number of matching points.
pub struct CardinalityEstimation {
    pub min: usize,
    pub max: usize,
}

/// What the estimator promises: with no tokens or an unknown token both
/// bounds are zero; otherwise the maximum is the length of the shortest
/// posting list among the tokens, and for a single term the bounds meet.
pub open spec fn estimate_ok(ix: &IndexBackend, ts: Seq<Seq<u8>>, min: int, max: int) -> bool {
    if ts.len() == 0 || (exists|j: int| 0 <= j < ts.len() && !ix.has_token(ts[j])) {
        min == 0 && max == 0
    } else {
        &&& exists|j: int| 0 <= j < ts.len() && max == ix.posting_seq(ts[j]).len()
        &&& forall|j: int| 0 <= j < ts.len() ==> max <= ix.posting_seq(ts[j]).len()
        &&& if ts.len() == 1 {
            min == max
        } else {
            min == 0
        }
    }
}

/// Estimate the cardinality of a conjunctive query without running it.
pub fn estimate_and(ix: &IndexBackend, tokens: &Vec<Vec<u8>>, hw: &mut HardwareCounter) -> (r:
    CardinalityEstimation)
    requires
        ix.wf(),
    ensures
        estimate_ok(ix, views_of(tokens@), r.min as int, r.max as int),
        final(hw).cost >= old(hw).cost,
{
    let ghost tokv = views_of(tokens@);
    let n = tokens.len();
    hw.charge(n);
    if n == 0 {
        return CardinalityEstimation { min: 0, max: 0 };
    }
    if !ix.token_known(&tokens[0]) {
        proof {
            assert(tokv[0] == tokens@[0]@);
            assert(!ix.has_token(tokv[0]));
        }
        return CardinalityEstimation { min: 0, max: 0 };
    }
    let mut max: usize = ix.posting_len(&tokens[0]);
    proof {
        assert(tokv[0] == tokens@[0]@);
        assert(max == ix.posting_seq(tokv[0]).len());
    }
    let mut j: usize = 1;
    while j < n
        invariant
            1 <= j <= n,
            n == tokens@.len(),
            ix.wf(),
            tokv == views_of(tokens@),
            hw.cost >= old(hw).cost,
            forall|l: int| 0 <= l < j ==> ix.has_token(tokv[l]),
            exists|l: int| 0 <= l < j && max == ix.posting_seq(tokv[l]).len(),
            forall|l: int| 0 <= l < j ==> max <= ix.posting_seq(tokv[l]).len(),
        decreases n - j,
    {
        if !ix.token_known(&tokens[j]) {
            proof {
                assert(tokv[j as int] == tokens@[j as int]@);
                assert(!ix.has_token(tokv[j as int]));
            }
            return CardinalityEstimation { min: 0, max: 0 };
        }
        let l = ix.posting_len(&tokens[j]);
        proof {
            assert(tokv[j as int] == tokens@[j as int]@);
        }
        if l < max {
            max = l;
            proof {
                assert(max == ix.posting_seq(tokv[j as int]).len());
            }
        }
        j += 1;
    }
    let min = if n == 1 {
        max
    } else {
        0
    };
    CardinalityEstimation { min, max }
}

/// Verify a phrase start-by-start: any valid start must be a position of the
/// first token, so only those candidates are tried.
fn phrase_check(ix: &IndexBackend, tokens: &Vec<Vec<u8>>, p: u32, hw: &mut HardwareCounter) -> (r:
    bool)
    requires
        ix.wf(),
        tokens@.len() > 0,
    ensures
        r == exists|s: int| phrase_at(ix, views_of(tokens@), p, s),
        final(hw).cost >= old(hw).cost,
{
    let ghost tokv = views_of(tokens@);
    let n = tokens.len();
    let first_pos = ix.positions_of(&tokens[0], p);
    hw.charge(first_pos.len());
    let m = first_pos.len();
    let mut i: usize = 0;
    while i < m
        invariant
            i <= m,
            m == first_pos@.len(),
            n == tokens@.len(),
            n > 0,
            ix.wf(),
            tokv == views_of(tokens@),
            first_pos@ == ix.point_positions(tokv[0], p),
            hw.cost >= old(hw).cost,
            forall|si: int| 0 <= si < i ==> !phrase_at(ix, tokv, p, first_pos@[si] as int),
        decreases m - i,
    {
        let s = first_pos[i];
        if n as u64 - 1 <= u32::MAX as u64 - s as u64 {
            let mut ok = true;
            let mut j: usize = 0;
            while j < n
                invariant
                    j <= n,
                    n == tokens@.len(),
                    ix.wf(),
                    tokv == views_of(tokens@),
                    s as int + n as int - 1 <= u32::MAX,
                    ok <==> (forall|l: int|
                        0 <= l < j ==> ix.point_positions(tokv[l], p).contains((s as int + l) as u32)),
                decreases n - j,
            {
                let pos_j = ix.positions_of(&tokens[j], p);
                let want = s + j as u32;
                if !contains_u32(&pos_j, want) {
                    proof {
                        assert(!ix.point_positions(tokv[j as int], p).contains(
                            (s as int + j as int) as u32));
                    }
                    ok = false;
                }
                j += 1;
            }
            if ok {
                proof {
                    assert(phrase_at(ix, tokv, p, s as int));
                }
                return true;
            }
            proof {
                assert(!phrase_at(ix, tokv, p, s as int)) by {
                    if phrase_at(ix, tokv, p, s as int) {
                        assert(forall|l: int|
                            0 <= l < n ==> ix.point_positions(tokv[l], p).contains(
                                (s as int + l) as u32));
                        assert(ok);
                    }
                }
            }
        } else {
            proof {
                assert(!phrase_at(ix, tokv, p, s as int));
            }
        }
        i += 1;
    }
    proof {
        if exists|s: int| phrase_at(ix, tokv, p, s) {
            let s = choose|s: int| phrase_at(ix, tokv, p, s);
            assert(ix.point_positions(tokv[0], p).contains((s + 0) as u32));
            assert(first_pos@.contains(s as u32));
            let si = choose|si: int| 0 <= si < first_pos@.len() && first_pos@[si] == s as u32;
            assert(first_pos@[si] as int == s);
            assert(!phrase_at(ix, tokv, p, s));
        }
    }
    false
}

/// Execute a phrase query: conjunctive matching followed by position
/// verification, keeping only points where the tokens stand consecutively.
pub fn query_phrase(ix: &IndexBackend, tokens: &Vec<Vec<u8>>, hw: &mut HardwareCounter) -> (r: Vec<
    u32>)
    requires
        ix.wf(),
        tokens@.len() > 0,
    ensures
        strictly_sorted(r@),
        forall|p: u32| r@.contains(p) <==> matches_phrase(ix, views_of(tokens@), p),
        final(hw).cost >= old(hw).cost,
{
    let ghost tokv = views_of(tokens@);
    let cand = query_and(ix, tokens, hw);
    let m = cand.len();
    let mut out: Vec<u32> = Vec::new();
    let mut i: usize = 0;
    while i < m
        invariant
            i <= m,
            m == cand@.len(),
            ix.wf(),
            tokens@.len() > 0,
            tokv == views_of(tokens@),
            strictly_sorted(cand@),
            hw.cost >= old(hw).cost,
            forall|p: u32| cand@.contains(p) <==> matches_and(ix, tokv, p),
            strictly_sorted(out@),
            forall|p: u32|
                out@.contains(p) <==> (cand@.subrange(0, i as int).contains(p)
                    && matches_phrase(ix, tokv, p)),
        decreases m - i,
    {
        let p = cand[i];
        let ghost outpre = out@;
        let keep = phrase_check(ix, tokens, p, hw);
        if keep {
            proof {
                assert(cand@[i as int] == p);
                assert(cand@.contains(p));
                assert forall|k: int| 0 <= k < outpre.len() implies outpre[k] < p by {
                    assert(outpre.contains(outpre[k]));
                    let c = choose|c: int|
                        0 <= c < i && cand@.subrange(0, i as int)[c] == outpre[k];
                    assert(cand@[c] == outpre[k]);
                    assert(cand@[c] < cand@[i as int]);
                }
            }
            out.push(p);
            assert(strictly_sorted(out@));
        }
        proof {
            let s0 = cand@.subrange(0, i as int);
            let s1 = cand@.subrange(0, i + 1);
            assert(s1 =~= s0.push(cand@[i as int]));
            assert forall|x: u32| s1.contains(x) <==> (s0.contains(x) || x == cand@[i as int]) by {
                if s1.contains(x) {
                    let c = choose|c: int| 0 <= c < s1.len() && s1[c] == x;
                    if c < i {
                        assert(s0[c] == x);
                        assert(s0.contains(x));
                    }
                }
                if s0.contains(x) {
                    let c = choose|c: int| 0 <= c < s0.len() && s0[c] == x;
                    assert(s1[c] == x);
                    assert(s1.contains(x));
                }
                if x == cand@[i as int] {
                    assert(s1[i as int] == x);
                    assert(s1.contains(x));
                }
            }
            if keep {
                assert(out@ =~= outpre.push(p));
                assert forall|x: u32|
                    out@.contains(x) <==> (outpre.contains(x) || x == p) by {
                    if out@.contains(x) {
                        let c = choose|c: int| 0 <= c < out@.len() && out@[c] == x;
                        if c < outpre.len() {
                            assert(outpre[c] == x);
                            assert(outpre.contains(x));
                        }
                    }
                    if outpre.contains(x) {
                        let c = choose|c: int| 0 <= c < outpre.len() && outpre[c] == x;
                        assert(out@[c] == x);
                        assert(out@.contains(x));
                    }
                    if x == p {
                        assert(out@[outpre.len() as int] == x);
                        assert(out@.contains(x));
                    }
                }
                assert(matches_and(ix, tokv, p));
                assert(matches_phrase(ix, tokv, p));
            } else {
                assert(!matches_phrase(ix, tokv, p));
            }
            assert forall|x: u32|
                out@.contains(x) <==> (s1.contains(x) && matches_phrase(ix, tokv, x)) by {
                assert(outpre.contains(x) <==> (s0.contains(x) && matches_phrase(ix, tokv, x)));
                if keep {
                    if x == p {
                        assert(out@.contains(x));
                        assert(s1.contains(x));
                    }
                } else {
                    assert(out@ == outpre);
                    if x == p {
                        assert(!matches_phrase(ix, tokv, x));
                    }
                }
            }
        }
        i += 1;
    }
    proof {
        assert(cand@.subrange(0, m as int) =~= cand@);
        assert forall|p: u32|
            out@.contains(p) <==> matches_phrase(ix, tokv, p) by {
            if matches_phrase(ix, tokv, p) {
                assert(matches_and(ix, tokv, p));
                assert(cand@.contains(p));
            }
        }
    }
    out
}

/// Cardinality soundness: for any result list with exactly the conjunctive
/// matches, the estimator's bounds bracket its length, and a single-term
/// estimate is exact.
pub proof fn lemma_cardinality_sound(
    ix: &IndexBackend,
    ts: Seq<Seq<u8>>,
    res: Seq<u32>,
    min: int,
    max: int,
)
    requires
        ix.wf(),
        strictly_sorted(res),
        ts.len() == 0 ==> res.len() == 0,
        ts.len() > 0 ==> forall|p: u32| res.contains(p) <==> matches_and(ix, ts, p),
        estimate_ok(ix, ts, min, max),
    ensures
        min <= res.len() <= max,
        ts.len() == 1 ==> min == res.len() && res.len() == max,
{
    if ts.len() == 0 {
    } else if exists|j: int| 0 <= j < ts.len() && !ix.has_token(ts[j]) {
        let j = choose|j: int| 0 <= j < ts.len() && !ix.has_token(ts[j]);
        assert(res.len() == 0) by {
            if res.len() > 0 {
                assert(res.contains(res[0]));
                assert(matches_and(ix, ts, res[0]));
                assert(ix.member(ts[j], res[0]));
            }
        }
    } else {
        let j = choose|j: int| 0 <= j < ts.len() && max == ix.posting_seq(ts[j]).len();
        ix.lemma_member_posting(ts[j]);
        assert forall|x: u32| res.contains(x) implies ix.posting_seq(ts[j]).contains(x) by {
            assert(matches_and(ix, ts, x));
            assert(ix.member(ts[j], x));
        }
        lemma_sorted_subset_len(res, ix.posting_seq(ts[j]));
        if ts.len() == 1 {
            assert(j == 0);
            assert forall|x: u32| ix.posting_seq(ts[0]).contains(x) implies res.contains(x) by {
                assert(ix.member(ts[0], x));
                assert forall|l: int| 0 <= l < ts.len() implies ix.member(ts[l], x) by {
                    assert(l == 0);
                }
            }
            lemma_sorted_unique(res, ix.posting_seq(ts[0]));
        }
    }
}

/// Intersection correctness: a two-token AND result is exactly the set
/// intersection of the two posting lists.
pub proof fn lemma_and_is_intersection(
    ix: &IndexBackend,
    a: Seq<u8>,
    b: Seq<u8>,
    res: Seq<u32>,
)
    requires
        ix.wf(),
        forall|p: u32| res.contains(p) <==> matches_and(ix, seq![a, b], p),
    ensures
        forall|p: u32|
            res.contains(p) <==> (ix.posting_seq(a).contains(p) && ix.posting_seq(b).contains(p)),
{
    ix.lemma_member_posting(a);
    ix.lemma_member_posting(b);
    let ts = seq![a, b];
    assert(ts[0] == a && ts[1] == b);
    assert forall|p: u32|
        res.contains(p) <==> (ix.posting_seq(a).contains(p) && ix.posting_seq(b).contains(p)) by {
        if res.contains(p) {
            assert(ix.member(ts[0], p));
            assert(ix.member(ts[1], p));
        }
        if ix.posting_seq(a).contains(p) && ix.posting_seq(b).contains(p) {
            assert forall|l: int| 0 <= l < ts.len() implies ix.member(ts[l], p) by {
                if l == 0 {
                } else {
                    assert(l == 1);
                }
            }
        }
    }
}

/// Deletion completeness: a point that no posting list contains cannot stand
/// in the result of any conjunctive query.
pub proof fn lemma_deletion_complete(
    ix: &IndexBackend,
    ts: Seq<Seq<u8>>,
    p: u32,
    res: Seq<u32>,
)
    requires
        ts.len() > 0,
        forall|t: Seq<u8>| !ix.member(t, p),
        forall|q: u32| res.contains(q) <==> matches_and(ix, ts, q),
    ensures
        !res.contains(p),
{
    if res.contains(p) {
        assert(ix.member(ts[0], p));
    }
}

/// Round-trip agreement: two backends that agree on membership (as the
/// builder guarantees of a mutable index and the immutable one built from
/// it) return the same conjunctive result, element for element; when they
/// also agree on positions, phrase results coincide too.
pub proof fn lemma_equal_models_equal_results(
    a: &IndexBackend,
    b: &IndexBackend,
    ts: Seq<Seq<u8>>,
    ra: Seq<u32>,
    rb: Seq<u32>,
)
    requires
        a.wf(),
        b.wf(),
        forall|t: Seq<u8>, p: u32| a.member(t, p) <==> b.member(t, p),
        strictly_sorted(ra),
        strictly_sorted(rb),
        ts.len() > 0,
        forall|p: u32| ra.contains(p) <==> matches_and(a, ts, p),
        forall|p: u32| rb.contains(p) <==> matches_and(b, ts, p),
    ensures
        ra == rb,
{
    assert forall|p: u32| ra.contains(p) <==> rb.contains(p) by {
        assert forall|j: int|
            0 <= j < ts.len() implies (a.member(ts[j], p) <==> b.member(ts[j], p)) by {}
        if matches_and(a, ts, p) {
            assert(matches_and(b, ts, p));
        }
        if matches_and(b, ts, p) {
            assert(matches_and(a, ts, p));
        }
    }
    lemma_sorted_unique(ra, rb);
}

/// Round-trip agreement for phrase queries: backends that agree on
/// membership and positions return the same phrase result.
pub proof fn lemma_equal_models_equal_phrase(
    a: &IndexBackend,
    b: &IndexBackend,
    ts: Seq<Seq<u8>>,
    ra: Seq<u32>,
    rb: Seq<u32>,
)
    requires
        a.wf(),
        b.wf(),
        forall|t: Seq<u8>, p: u32| a.member(t, p) <==> b.member(t, p),
        forall|t: Seq<u8>, p: u32| a.point_positions(t, p) == b.point_positions(t, p),
        strictly_sorted(ra),
        strictly_sorted(rb),
        ts.len() > 0,
        forall|p: u32| ra.contains(p) <==> matches_phrase(a, ts, p),
        forall|p: u32| rb.contains(p) <==> matches_phrase(b, ts, p),
    ensures
        ra == rb,
{
    assert forall|p: u32| ra.contains(p) <==> rb.contains(p) by {
        assert forall|j: int|
            0 <= j < ts.len() implies (a.member(ts[j], p) <==> b.member(ts[j], p)) by {}
        assert(matches_and(a, ts, p) <==> matches_and(b, ts, p));
        assert forall|s: int| phrase_at(a, ts, p, s) <==> phrase_at(b, ts, p, s) by {
            assert forall|j: int|
                0 <= j < ts.len()
                implies (a.point_positions(ts[j], p).contains((s + j) as u32)
                    <==> b.point_positions(ts[j], p).contains((s + j) as u32)) by {}
        }
        if matches_phrase(a, ts, p) {
            let s = choose|s: int| phrase_at(a, ts, p, s);
            assert(phrase_at(b, ts, p, s));
            assert(matches_phrase(b, ts, p));
        }
        if matches_phrase(b, ts, p) {
            let s = choose|s: int| phrase_at(b, ts, p, s);
            assert(phrase_at(a, ts, p, s));
            assert(matches_phrase(a, ts, p));
        }
    }
    lemma_sorted_unique(ra, rb);
}

} // verus!
