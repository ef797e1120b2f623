//! The payload-index protocol: the capability set a field index exposes to
//! the segment layer, and the full-text field index behind it.
//!
//! A `FullTextIndex` binds one tokenizer configuration to one inverted-index
//! backend; the `PayloadIndexState` composes field indexes with a point
//! payload store, building, applying and dropping indexes per field and
//! keeping every field index in step with payload writes.

use vstd::prelude::*;
use crate::tokenizer::TokenizerConfig;
use crate::tokenizer::spec_tokenize;
use crate::tokenizer::raw_tokens;
use crate::tokenizer::kept_tokens;
use crate::tokenizer::views_of;
use crate::tokenizer::tokenize;
use crate::tokenizer::bytes_eq;
use crate::mutable_index::MutableInvertedIndex;
use crate::immutable_index::build_immutable;
use crate::query::IndexBackend;
use crate::query::HardwareCounter;
use crate::query::CardinalityEstimation;
use crate::query::matches_and;
use crate::query::matches_phrase;
use crate::query::query_and;
use crate::query::query_phrase;
use crate::query::estimate_and;
use crate::query::estimate_ok;
use crate::postings::strictly_sorted;

verus! {

/// Why an operation on a text index was refused.
#[derive(Debug, PartialEq, Eq, Structural)]
pub enum OperationError {
    /// The index generation is frozen: no insert or delete is accepted.
    Frozen,
    /// The operation needs a mutable generation's feature that is off.
    PositionsDisabled,
    /// A length in the index exceeds the image format's 32-bit fields.
    ImageTooLarge,
}

/// Tokenizer configurations agree field for field.
pub open spec fn config_eq(a: &TokenizerConfig, b: &TokenizerConfig) -> bool {
    &&& a.lowercase == b.lowercase
    &&& a.min_token_len == b.min_token_len
    &&& a.max_token_len == b.max_token_len
    &&& a.positions_enabled == b.positions_enabled
    &&& views_of(a.stop_words@) == views_of(b.stop_words@)
}

/// Whether two configurations are the same schema.
pub fn config_matches(a: &TokenizerConfig, b: &TokenizerConfig) -> (r: bool)
    ensures
        r == config_eq(a, b),
{
    if a.lowercase != b.lowercase || a.min_token_len != b.min_token_len
        || a.max_token_len != b.max_token_len || a.positions_enabled != b.positions_enabled {
        return false;
    }
    let n = a.stop_words.len();
    if n != b.stop_words.len() {
        proof {
            assert(views_of(a.stop_words@).len() == a.stop_words@.len());
            assert(views_of(b.stop_words@).len() == b.stop_words@.len());
        }
        return false;
    }
    let mut i: usize = 0;
    while i < n
        invariant
            i <= n,
            n == a.stop_words@.len(),
            n == b.stop_words@.len(),
            forall|j: int| 0 <= j < i ==> views_of(a.stop_words@)[j] == views_of(b.stop_words@)[j],
        decreases n - i,
    {
        if !bytes_eq(&a.stop_words[i], &b.stop_words[i]) {
            assert(views_of(a.stop_words@)[i as int] != views_of(b.stop_words@)[i as int]);
            return false;
        }
        assert(views_of(a.stop_words@)[i as int] == views_of(b.stop_words@)[i as int]);
        i += 1;
    }
    proof {
        assert(views_of(a.stop_words@) =~= views_of(b.stop_words@));
    }
    true
}

/// Filtering agrees under configurations that agree.
proof fn lemma_kept_tokens_config_eq(ts: Seq<Seq<u8>>, a: TokenizerConfig, b: TokenizerConfig)
    requires
        config_eq(&a, &b),
    ensures
        kept_tokens(ts, a) == kept_tokens(ts, b),
    decreases ts.len(),
{
    if ts.len() > 0 {
        lemma_kept_tokens_config_eq(ts.drop_last(), a, b);
        assert(a.stop_set() == b.stop_set());
        assert(a.keeps(ts.last()) == b.keeps(ts.last()));
    }
}

/// Equal schemas tokenize every text alike.
pub proof fn lemma_tokenize_config_eq(s: Seq<u8>, a: TokenizerConfig, b: TokenizerConfig)
    requires
        config_eq(&a, &b),
    ensures
        spec_tokenize(s, a) == spec_tokenize(s, b),
{
    assert(raw_tokens(s, a.lowercase) == raw_tokens(s, b.lowercase));
    lemma_kept_tokens_config_eq(raw_tokens(s, a.lowercase), a, b);
}

/// Whether some payload entry gives point `p` a text whose token stream
/// under `cfg` contains token `t`.
pub open spec fn pay_member(
    pays: Seq<(u32, Vec<u8>)>,
    cfg: TokenizerConfig,
    t: Seq<u8>,
    p: u32,
) -> bool {
    exists|j: int|
        0 <= j < pays.len() && pays[j].0 == p && spec_tokenize(pays[j].1@, cfg).contains(t)
}

/// A text field index: one tokenizer configuration bound to one backend.
pub struct FullTextIndex {
    pub config: TokenizerConfig,
    pub backend: IndexBackend,
}

impl FullTextIndex {
    pub open spec fn wf(&self) -> bool {
        &&& self.backend.wf()
        &&& self.config.positions_enabled == self.backend.positions_enabled()
    }

    /// Whether this generation still accepts inserts and deletes.
    pub open spec fn is_mutable(&self) -> bool {
        self.backend is Mutable
    }

    /// Whether point `p`'s indexed text contains token `t`.
    pub open spec fn member(&self, t: Seq<u8>, p: u32) -> bool {
        self.backend.member(t, p)
    }

    /// The token stream this field's tokenizer derives from `text`.
    pub open spec fn tokens_of(&self, text: Seq<u8>) -> Seq<Seq<u8>> {
        spec_tokenize(text, self.config)
    }

    /// An empty, mutable generation under `config`.
    pub fn new(config: TokenizerConfig) -> (r: FullTextIndex)
        ensures
            r.wf(),
            r.is_mutable(),
            config_eq(&r.config, &config),
            forall|t: Seq<u8>, p: u32| !r.member(t, p),
            r.backend.points_count() == 0,
    {
        let positions_enabled = config.positions_enabled;
        let m = MutableInvertedIndex::new(positions_enabled);
        proof {
            assert forall|t: Seq<u8>, p: u32| !m.member(t, p) by {}
        }
        FullTextIndex { config, backend: IndexBackend::Mutable(m) }
    }

    /// Tokenize `text` and insert (or re-insert) point `p` with it.  Only a
    /// mutable generation accepts the write; a frozen one refuses it
    /// unchanged.
    pub fn insert_document(&mut self, p: u32, text: &Vec<u8>) -> (r: Result<(), OperationError>)
        requires
            old(self).wf(),
            text@.len() <= u32::MAX,
        ensures
            final(self).wf(),
            final(self).config == old(self).config,
            r is Ok <==> old(self).is_mutable(),
            r is Err ==> *final(self) == *old(self) && r->Err_0 is Frozen,
            r is Ok ==> {
                &&& final(self).is_mutable()
                &&& forall|t: Seq<u8>|
                    final(self).member(t, p) <==> old(self).tokens_of(text@).contains(t)
                &&& forall|t: Seq<u8>, q: u32|
                    q != p ==> (final(self).member(t, q) <==> old(self).member(t, q))
                &&& forall|t: Seq<u8>, q: u32|
                    q != p ==> final(self).backend.point_positions(t, q) == old(
                        self).backend.point_positions(t, q)
                &&& (final(self).config.positions_enabled ==> forall|t: Seq<u8>, pos: u32|
                    final(self).backend.point_positions(t, p).contains(pos) <==> (
                    pos < old(self).tokens_of(text@).len() && old(self).tokens_of(text@)[
                        pos as int] == t))
            },
    {
        let tokens = tokenize(text, &self.config);
        proof {
            assert(views_of(tokens@).len() == tokens@.len());
            crate::tokenizer::lemma_tokenize_len(text@, self.config);
        }
        match &mut self.backend {
            IndexBackend::Mutable(m) => {
                m.insert_document(p, &tokens);
                Ok(())
            },
            IndexBackend::Immutable(_) => Err(OperationError::Frozen),
        }
    }

    /// Remove point `p`.  A no-op (still `Ok`) when `p` was never indexed;
    /// refused unchanged by a frozen generation.
    pub fn remove_document(&mut self, p: u32) -> (r: Result<(), OperationError>)
        requires
            old(self).wf(),
        ensures
            final(self).wf(),
            final(self).config == old(self).config,
            r is Ok <==> old(self).is_mutable(),
            r is Err ==> *final(self) == *old(self) && r->Err_0 is Frozen,
            r is Ok ==> {
                &&& final(self).is_mutable()
                &&& forall|t: Seq<u8>| !final(self).member(t, p)
                &&& forall|t: Seq<u8>, q: u32|
                    q != p ==> (final(self).member(t, q) <==> old(self).member(t, q))
            },
    {
        match &mut self.backend {
            IndexBackend::Mutable(m) => {
                m.remove_document(p);
                Ok(())
            },
            IndexBackend::Immutable(_) => Err(OperationError::Frozen),
        }
    }

    /// Answer a conjunctive (AND) query for the tokens of `text`: exactly
    /// the points containing every query token, ascending.
    pub fn query(&self, text: &Vec<u8>, hw: &mut HardwareCounter) -> (r: Vec<u32>)
        requires
            self.wf(),
        ensures
            strictly_sorted(r@),
            self.tokens_of(text@).len() == 0 ==> r@.len() == 0,
            self.tokens_of(text@).len() > 0 ==> forall|p: u32|
                r@.contains(p) <==> matches_and(&self.backend, self.tokens_of(text@), p),
            final(hw).cost >= old(hw).cost,
    {
        let tokens = tokenize(text, &self.config);
        query_and(&self.backend, &tokens, hw)
    }

    /// Answer a phrase query: conjunctive matching plus consecutive
    /// positions.  Needs positions and a non-empty token stream.
    pub fn query_phrase(&self, text: &Vec<u8>, hw: &mut HardwareCounter) -> (r: Result<Vec<u32>,
        OperationError>)
        requires
            self.wf(),
        ensures
            r is Ok <==> (self.config.positions_enabled && self.tokens_of(text@).len() > 0),
            r is Ok ==> strictly_sorted((r->Ok_0)@) && (forall|p: u32|
                (r->Ok_0)@.contains(p) <==> matches_phrase(&self.backend, self.tokens_of(text@),
                p)),
            final(hw).cost >= old(hw).cost,
    {
        if !self.config.positions_enabled {
            return Err(OperationError::PositionsDisabled);
        }
        let tokens = tokenize(text, &self.config);
        proof {
            assert(views_of(tokens@).len() == tokens@.len());
        }
        if tokens.len() == 0 {
            return Err(OperationError::PositionsDisabled);
        }
        Ok(query_phrase(&self.backend, &tokens, hw))
    }

    /// Estimate the cardinality of the conjunctive query for `text`.
    pub fn estimate_cardinality(&self, text: &Vec<u8>, hw: &mut HardwareCounter) -> (r:
        CardinalityEstimation)
        requires
            self.wf(),
        ensures
            estimate_ok(&self.backend, self.tokens_of(text@), r.min as int, r.max as int),
            final(hw).cost >= old(hw).cost,
    {
        let tokens = tokenize(text, &self.config);
        estimate_and(&self.backend, &tokens, hw)
    }

    /// Compact this generation into a frozen one answering every membership
    /// and position question identically.  The builder consumes its input;
    /// freezing an already frozen generation keeps it as it is.
    pub fn freeze(self) -> (r: FullTextIndex)
        requires
            self.wf(),
        ensures
            r.wf(),
            !r.is_mutable(),
            r.config == self.config,
            forall|t: Seq<u8>, p: u32| r.member(t, p) <==> self.member(t, p),
            forall|t: Seq<u8>, p: u32|
                r.backend.point_positions(t, p) == self.backend.point_positions(t, p),
            self.backend.cross_consistent() ==> r.backend.cross_consistent(),
    {
        match self.backend {
            IndexBackend::Mutable(m) => {
                let im = build_immutable(&m);
                FullTextIndex { config: self.config, backend: IndexBackend::Immutable(im) }
            },
            IndexBackend::Immutable(im) => {
                FullTextIndex { config: self.config, backend: IndexBackend::Immutable(im) }
            },
        }
    }
}


impl FullTextIndex {
    /// Whether point `p` matches the conjunctive query for `text`: the
    /// filter-context capability, testing one point without materializing
    /// the result set.
    pub fn check_point(&self, text: &Vec<u8>, p: u32, hw: &mut HardwareCounter) -> (r: bool)
        requires
            self.wf(),
        ensures
            r == (self.tokens_of(text@).len() > 0 && matches_and(&self.backend, self.tokens_of(
                text@), p)),
            final(hw).cost >= old(hw).cost,
    {
        let tokens = tokenize(text, &self.config);
        let ghost tokv = views_of(tokens@);
        proof {
            assert(tokv.len() == tokens@.len());
            assert(tokv == self.tokens_of(text@));
        }
        let n = tokens.len();
        if n == 0 {
            return false;
        }
        hw.charge(n);
        let mut j: usize = 0;
        while j < n
            invariant
                j <= n,
                n == tokens@.len(),
                self.wf(),
                tokv == views_of(tokens@),
                tokv == self.tokens_of(text@),
                hw.cost >= old(hw).cost,
                forall|l: int| 0 <= l < j ==> self.backend.member(tokv[l], p),
            decreases n - j,
        {
            let pl = self.backend.posting_ids(&tokens[j]);
            let plist = crate::postings::PostingList { ids: pl };
            proof {
                self.backend.lemma_member_posting(tokv[j as int]);
            }
            if !plist.contains(p) {
                proof {
                    assert(!self.backend.member(tokv[j as int], p));
                    assert(!matches_and(&self.backend, tokv, p));
                }
                return false;
            }
            j += 1;
        }
        proof {
            assert(matches_and(&self.backend, tokv, p));
        }
        true
    }

    /// The payload blocks of this field: exactly the tokens whose posting
    /// list holds at least `threshold` points, each with its exact match
    /// count.
    pub fn payload_blocks(&self, threshold: usize, hw: &mut HardwareCounter) -> (r: Vec<(Vec<u8>,
        usize)>)
        requires
            self.wf(),
        ensures
            forall|k: int|
                0 <= k < r@.len() ==> (#[trigger] r@[k]).1 >= threshold
                    && self.backend.has_token(r@[k].0@)
                    && r@[k].1 == self.backend.posting_seq(r@[k].0@).len(),
            forall|ti: int|
                0 <= ti < self.backend.vocab_tokens().len()
                    && self.backend.posting_seq(#[trigger] self.backend.vocab_tokens()[ti]).len()
                        >= threshold
                    ==> exists|k: int| 0 <= k < r@.len() && (#[trigger] r@[k]).0@
                        == self.backend.vocab_tokens()[ti],
            final(hw).cost >= old(hw).cost,
    {
        let mut out: Vec<(Vec<u8>, usize)> = Vec::new();
        let n = self.backend.vocab_count();
        hw.charge(n);
        let mut i: usize = 0;
        while i < n
            invariant
                i <= n,
                self.wf(),
                n == self.backend.vocab_size(),
                n == self.backend.vocab_tokens().len(),
                forall|k: int|
                    0 <= k < out@.len() ==> (#[trigger] out@[k]).1 >= threshold
                        && self.backend.has_token(out@[k].0@)
                        && out@[k].1 == self.backend.posting_seq(out@[k].0@).len(),
                forall|ti: int|
                    0 <= ti < i && self.backend.posting_seq(
                        #[trigger] self.backend.vocab_tokens()[ti]).len() >= threshold
                        ==> exists|k: int| 0 <= k < out@.len() && (#[trigger] out@[k]).0@
                            == self.backend.vocab_tokens()[ti],
            decreases n - i,
        {
            let tok = self.backend.token_bytes(i);
            let c = self.backend.posting_len(&tok);
            let ghost pre = out@;
            if c >= threshold {
                out.push((tok, c));
                proof {
                    assert forall|k: int|
                        0 <= k < out@.len()
                        implies (#[trigger] out@[k]).1 >= threshold
                            && self.backend.has_token(out@[k].0@)
                            && out@[k].1 == self.backend.posting_seq(out@[k].0@).len() by {
                        if k < pre.len() {
                            assert(out@[k] == pre[k]);
                        }
                    }
                }
            }
            proof {
                assert forall|ti: int|
                    0 <= ti < i + 1 && self.backend.posting_seq(
                        #[trigger] self.backend.vocab_tokens()[ti]).len() >= threshold
                    implies exists|k: int| 0 <= k < out@.len() && (#[trigger] out@[k]).0@
                        == self.backend.vocab_tokens()[ti] by {
                    if ti < i {
                        let k = choose|k: int|
                            0 <= k < pre.len() && (#[trigger] pre[k]).0@
                                == self.backend.vocab_tokens()[ti];
                        assert(out@[k].0@ == self.backend.vocab_tokens()[ti]);
                    } else {
                        assert(c >= threshold);
                        assert(out@[pre.len() as int].0@ == self.backend.vocab_tokens()[ti]);
                    }
                }
            }
            i += 1;
        }
        out
    }

    /// Whether the frozen image of this index can be written: the
    /// generation is frozen and every length fits the image's fields.
    pub open spec fn flush_ready(&self) -> bool {
        match self.backend {
            IndexBackend::Immutable(im) => im.bounded(),
            IndexBackend::Mutable(_) => false,
        }
    }

    /// The byte image this index flushes: a pure function of its state, so
    /// repeated flushes write identical bytes.
    pub open spec fn flush_image(&self) -> Seq<u8> {
        match self.backend {
            IndexBackend::Immutable(im) => im.spec_image(),
            IndexBackend::Mutable(_) => Seq::empty(),
        }
    }

    /// Serialize the frozen generation into its durable byte image: `Ok`
    /// exactly when the generation is frozen and its lengths fit the image
    /// format.
    pub fn flush_bytes(&self) -> (r: Result<Vec<u8>, OperationError>)
        requires
            self.wf(),
        ensures
            r is Ok <==> (!self.is_mutable() && self.flush_ready()),
            r is Ok ==> (r->Ok_0)@ == self.flush_image(),
            r is Err && self.is_mutable() ==> r->Err_0 is Frozen,
            r is Err && !self.is_mutable() ==> r->Err_0 is ImageTooLarge,
    {
        match &self.backend {
            IndexBackend::Mutable(_) => Err(OperationError::Frozen),
            IndexBackend::Immutable(im) => {
                if im.is_bounded() {
                    Ok(im.serialize())
                } else {
                    Err(OperationError::ImageTooLarge)
                }
            },
        }
    }

    /// Reopen a flushed image as a frozen generation under `config`; the
    /// positions flag is taken from the image's own header.  The header
    /// version is validated, the loaded structures are held to the
    /// postings/reverse-map agreement, and a reopened index writes back
    /// exactly the bytes it was opened from.
    pub fn open(config: TokenizerConfig, bytes: &Vec<u8>) -> (r: Result<FullTextIndex,
        crate::storage::StorageError>)
        ensures
            r is Ok ==> {
                &&& (r->Ok_0).wf()
                &&& !(r->Ok_0).is_mutable()
                &&& (r->Ok_0).backend.cross_consistent()
                &&& (r->Ok_0).flush_image() == bytes@
                &&& (r->Ok_0).flush_ready()
            },
            (r is Err && r->Err_0 is UnsupportedVersion) <==> (bytes@.len() >= 4
                && crate::storage::u32_of(bytes@[0], bytes@[1], bytes@[2], bytes@[3])
                    != crate::storage::FORMAT_VERSION as int),
    {
        match crate::storage::open_image(bytes) {
            Ok(im) => {
                if !im.check_consistent() {
                    return Err(crate::storage::StorageError::Malformed);
                }
                let mut config = config;
                config.positions_enabled = im.positions_enabled;
                Ok(FullTextIndex { config, backend: IndexBackend::Immutable(im) })
            },
            Err(e) => Err(e),
        }
    }
}

/// Copy a tokenizer configuration.
fn clone_config(c: &TokenizerConfig) -> (r: TokenizerConfig)
    ensures
        config_eq(&r, c),
        r.positions_enabled == c.positions_enabled,
{
    let mut stop_words: Vec<Vec<u8>> = Vec::new();
    let n = c.stop_words.len();
    let mut i: usize = 0;
    while i < n
        invariant
            i <= n,
            n == c.stop_words@.len(),
            stop_words@.len() == i,
            forall|j: int| 0 <= j < i ==> (#[trigger] stop_words@[j])@ == c.stop_words@[j]@,
        decreases n - i,
    {
        let w = c.stop_words[i].clone();
        proof {
            assert(w@ == c.stop_words@[i as int]@);
        }
        stop_words.push(w);
        i += 1;
    }
    proof {
        assert(views_of(stop_words@) =~= views_of(c.stop_words@));
    }
    TokenizerConfig {
        lowercase: c.lowercase,
        min_token_len: c.min_token_len,
        max_token_len: c.max_token_len,
        positions_enabled: c.positions_enabled,
        stop_words,
    }
}

/// One built field index, as handed between `build_index` and `apply_index`.
pub enum FieldIndex {
    FullText(FullTextIndex),
}

impl FieldIndex {
    pub open spec fn wf(&self) -> bool {
        match self {
            FieldIndex::FullText(ix) => ix.wf(),
        }
    }

    /// The text index this entry carries.
    pub open spec fn text(&self) -> FullTextIndex {
        match self {
            FieldIndex::FullText(ix) => *ix,
        }
    }
}

/// What building an index for a field produced.
pub enum BuildIndexResult {
    /// The index was built; the artifacts are ready to apply.
    Built(Vec<FieldIndex>),
    /// The field is already indexed under the same schema.
    AlreadyBuilt,
    /// The field is indexed under an incompatible schema; the old index must
    /// be removed first.
    IncompatibleSchema,
}

/// One indexed field: its key and its index.
pub struct FieldEntry {
    pub key: Vec<u8>,
    pub index: FieldIndex,
}

/// The payload-index state of one segment: the indexed fields and the
/// per-point payload text they index.
pub struct PayloadIndexState {
    pub fields: Vec<FieldEntry>,
    pub payloads: Vec<(u32, Vec<u8>)>,
}

impl PayloadIndexState {
    pub open spec fn wf(&self) -> bool {
        &&& forall|i: int, j: int|
            0 <= i < j < self.fields@.len()
                ==> (#[trigger] self.fields@[i]).key@ != (#[trigger] self.fields@[j]).key@
        &&& forall|i: int| 0 <= i < self.fields@.len() ==> (#[trigger] self.fields@[i]).index.wf()
        &&& forall|i: int, j: int|
            0 <= i < j < self.payloads@.len() ==> self.payloads@[i].0 != self.payloads@[j].0
    }

    /// Whether `key` names an indexed field.
    pub open spec fn has_field(&self, key: Seq<u8>) -> bool {
        exists|i: int| 0 <= i < self.fields@.len() && self.fields@[i].key@ == key
    }

    pub open spec fn field_at(&self, key: Seq<u8>) -> int {
        choose|i: int| 0 <= i < self.fields@.len() && self.fields@[i].key@ == key
    }

    /// The text index of field `key`; meaningful only when `has_field(key)`.
    pub open spec fn field_index(&self, key: Seq<u8>) -> FullTextIndex {
        self.fields@[self.field_at(key)].index.text()
    }

    /// Whether point `p` has a payload value.
    pub open spec fn has_payload(&self, p: u32) -> bool {
        exists|i: int| 0 <= i < self.payloads@.len() && self.payloads@[i].0 == p
    }

    pub open spec fn payload_at(&self, p: u32) -> int {
        choose|i: int| 0 <= i < self.payloads@.len() && self.payloads@[i].0 == p
    }

    /// An empty state: nothing indexed, no payloads.
    pub fn new() -> (r: PayloadIndexState)
        ensures
            r.wf(),
            forall|key: Seq<u8>| !r.has_field(key),
            forall|p: u32| !r.has_payload(p),
    {
        PayloadIndexState { fields: Vec::new(), payloads: Vec::new() }
    }

    /// The index entry of field `key`, if any.
    fn find_field(&self, key: &Vec<u8>) -> (r: Option<usize>)
        ensures
            match r {
                Some(i) => i < self.fields@.len() && self.fields@[i as int].key@ == key@
                    && self.has_field(key@),
                None => !self.has_field(key@),
            },
    {
        let n = self.fields.len();
        let mut i: usize = 0;
        while i < n
            invariant
                i <= n,
                n == self.fields@.len(),
                forall|j: int| 0 <= j < i ==> (#[trigger] self.fields@[j]).key@ != key@,
            decreases n - i,
        {
            if bytes_eq(&self.fields[i].key, key) {
                return Some(i);
            }
            i += 1;
        }
        proof {
            if self.has_field(key@) {
                let j = choose|j: int| 0 <= j < self.fields@.len() && self.fields@[j].key@ == key@;
                assert(self.fields@[j].key@ != key@);
            }
        }
        None
    }

    /// The payload entry of point `p`, if any.
    fn find_payload(&self, p: u32) -> (r: Option<usize>)
        ensures
            match r {
                Some(i) => i < self.payloads@.len() && self.payloads@[i as int].0 == p
                    && self.has_payload(p),
                None => !self.has_payload(p),
            },
    {
        let n = self.payloads.len();
        let mut i: usize = 0;
        while i < n
            invariant
                i <= n,
                n == self.payloads@.len(),
                forall|j: int| 0 <= j < i ==> self.payloads@[j].0 != p,
            decreases n - i,
        {
            if self.payloads[i].0 == p {
                return Some(i);
            }
            i += 1;
        }
        proof {
            if self.has_payload(p) {
                let j = choose|j: int| 0 <= j < self.payloads@.len() && self.payloads@[j].0 == p;
                assert(self.payloads@[j].0 != p);
            }
        }
        None
    }

    /// Build a text index for `field` from the current payloads, taking the
    /// state by shared reference only: `Built` with the artifacts when the
    /// field is not yet indexed, `AlreadyBuilt` when it is indexed under the
    /// same schema, `IncompatibleSchema` when its schema differs.  A built
    /// artifact carries the given schema and indexes exactly the stored
    /// payloads: a point contains a token iff its payload's token stream
    /// under the schema does.
    pub fn build_index(
        &self,
        field: &Vec<u8>,
        schema: &TokenizerConfig,
        hw: &mut HardwareCounter,
    ) -> (r: BuildIndexResult)
        requires
            self.wf(),
            forall|i: int| 0 <= i < self.payloads@.len() ==> (#[trigger] self.payloads@[i]).1@.len()
                <= u32::MAX,
        ensures
            r is Built <==> !self.has_field(field@),
            r is AlreadyBuilt <==> (self.has_field(field@) && (self.fields@[self.field_at(
                field@)].index matches FieldIndex::FullText(fx) && config_eq(&fx.config, schema))),
            r matches BuildIndexResult::Built(v) ==> {
                &&& v@.len() == 1
                &&& v@[0].wf()
                &&& v@[0].text().is_mutable()
                &&& config_eq(&v@[0].text().config, schema)
                &&& forall|t: Seq<u8>, p: u32|
                    v@[0].text().member(t, p) <==> pay_member(self.payloads@, *schema, t, p)
            },
            final(hw).cost >= old(hw).cost,
    {
        match self.find_field(field) {
            Some(i) => {
                proof {
                    self.lemma_field_at(i as int);
                }
                let FieldIndex::FullText(fx) = &self.fields[i].index;
                if config_matches(&fx.config, schema) {
                    BuildIndexResult::AlreadyBuilt
                } else {
                    BuildIndexResult::IncompatibleSchema
                }
            },
            None => {
                let mut ix = FullTextIndex::new(clone_config(schema));
                let n = self.payloads.len();
                let mut i: usize = 0;
                proof {
                    assert(config_eq(&ix.config, schema)) by {
                        assert(views_of(ix.config.stop_words@) == views_of(schema.stop_words@));
                    }
                }
                while i < n
                    invariant
                        i <= n,
                        n == self.payloads@.len(),
                        self.wf(),
                        forall|j: int|
                            0 <= j < n ==> (#[trigger] self.payloads@[j]).1@.len() <= u32::MAX,
                        ix.wf(),
                        ix.is_mutable(),
                        config_eq(&ix.config, schema),
                        forall|t: Seq<u8>, p: u32|
                            ix.member(t, p) <==> (exists|j: int|
                                0 <= j < i && (#[trigger] self.payloads@[j]).0 == p
                                    && spec_tokenize(self.payloads@[j].1@, *schema).contains(t)),
                        hw.cost >= old(hw).cost,
                    decreases n - i,
                {
                    let p = self.payloads[i].0;
                    hw.charge(self.payloads[i].1.len());
                    let ghost a = ix;
                    let res = ix.insert_document(p, &self.payloads[i].1);
                    proof {
                        assert(res is Ok);
                        lemma_tokenize_config_eq(self.payloads@[i as int].1@, a.config, *schema);
                        assert(a.tokens_of(self.payloads@[i as int].1@) == spec_tokenize(
                            self.payloads@[i as int].1@, *schema));
                        assert forall|t: Seq<u8>, q: u32|
                            ix.member(t, q) <==> (exists|j: int|
                                0 <= j < i + 1 && (#[trigger] self.payloads@[j]).0 == q
                                    && spec_tokenize(self.payloads@[j].1@, *schema).contains(
                                t)) by {
                            if q == p {
                                assert(ix.member(t, q) <==> spec_tokenize(
                                    self.payloads@[i as int].1@, *schema).contains(t));
                                if ix.member(t, q) {
                                    assert(self.payloads@[i as int].0 == q);
                                }
                                if exists|j: int|
                                    0 <= j < i + 1 && (#[trigger] self.payloads@[j]).0 == q
                                        && spec_tokenize(self.payloads@[j].1@, *schema).contains(
                                    t) {
                                    let j = choose|j: int|
                                        0 <= j < i + 1 && (#[trigger] self.payloads@[j]).0 == q
                                            && spec_tokenize(self.payloads@[j].1@,
                                        *schema).contains(t);
                                    if j < i {
                                        assert(self.payloads@[j].0 != self.payloads@[i as int].0);
                                        assert(false);
                                    }
                                    assert(j == i as int);
                                }
                            } else {
                                assert(ix.member(t, q) <==> a.member(t, q));
                                if exists|j: int|
                                    0 <= j < i + 1 && (#[trigger] self.payloads@[j]).0 == q
                                        && spec_tokenize(self.payloads@[j].1@, *schema).contains(
                                    t) {
                                    let j = choose|j: int|
                                        0 <= j < i + 1 && (#[trigger] self.payloads@[j]).0 == q
                                            && spec_tokenize(self.payloads@[j].1@,
                                        *schema).contains(t);
                                    assert(j != i as int);
                                    assert(0 <= j < i && self.payloads@[j].0 == q
                                        && spec_tokenize(self.payloads@[j].1@, *schema).contains(
                                        t));
                                }
                            }
                        }
                    }
                    i += 1;
                }
                proof {
                    assert forall|t: Seq<u8>, p: u32|
                        ix.member(t, p) <==> pay_member(self.payloads@, *schema, t, p) by {}
                }
                let mut v: Vec<FieldIndex> = Vec::new();
                v.push(FieldIndex::FullText(ix));
                proof {
                    assert(v@[0].text() == ix);
                }
                BuildIndexResult::Built(v)
            },
        }
    }

    /// If field `key` stands at index `i`, then `field_at` picks `i`.
    pub proof fn lemma_field_at(&self, i: int)
        requires
            self.wf(),
            0 <= i < self.fields@.len(),
        ensures
            self.has_field(self.fields@[i].key@),
            self.field_at(self.fields@[i].key@) == i,
    {
        let k = self.fields@[i].key@;
        assert(exists|j: int| 0 <= j < self.fields@.len() && self.fields@[j].key@ == k);
        let j = self.field_at(k);
        if j < i {
            assert(self.fields@[j].key@ != self.fields@[i].key@);
        } else if j > i {
            assert(self.fields@[i].key@ != self.fields@[j].key@);
        }
    }

    /// Install previously built index artifacts for `field`: afterwards the
    /// field carries exactly the given artifact, every other field keeps its
    /// entry, and any index the field had is replaced.
    pub fn apply_index(&mut self, field: Vec<u8>, artifacts: Vec<FieldIndex>) -> (r: Result<(),
        OperationError>)
        requires
            old(self).wf(),
            artifacts@.len() == 1,
            artifacts@[0].wf(),
        ensures
            final(self).wf(),
            r is Ok,
            final(self).has_field(field@),
            forall|k: Seq<u8>|
                final(self).has_field(k) <==> (old(self).has_field(k) || k == field@),
            final(self).fields@[final(self).field_at(field@)].index == artifacts@[0],
            forall|k: Seq<u8>|
                old(self).has_field(k) && k != field@
                    ==> final(self).fields@[final(self).field_at(k)] == old(self).fields@[old(
                        self).field_at(k)],
            final(self).payloads == old(self).payloads,
    {
        let mut artifacts = artifacts;
        let ix = artifacts.remove(0);
        match self.find_field(&field) {
            Some(i) => {
                proof {
                    assert(old(self).fields@[i as int].key@ == field@);
                }
                let ghost pre = self.fields@;
                self.fields[i] = FieldEntry { key: field, index: ix };
                proof {
                    assert(self.fields@ =~= pre.update(i as int, self.fields@[i as int]));
                    assert forall|a: int, b: int|
                        0 <= a < b < self.fields@.len()
                        implies (#[trigger] self.fields@[a]).key@ != (
                        #[trigger] self.fields@[b]).key@ by {
                        assert(pre[a].key@ != pre[b].key@);
                        if a != i && b != i {
                            assert(self.fields@[a] == pre[a]);
                            assert(self.fields@[b] == pre[b]);
                        } else if a == i {
                            assert(self.fields@[a].key@ == pre[a].key@);
                            assert(self.fields@[b] == pre[b]);
                        } else {
                            assert(self.fields@[b].key@ == pre[b].key@);
                            assert(self.fields@[a] == pre[a]);
                        }
                    }
                    assert forall|k: Seq<u8>|
                        self.has_field(k) <==> (old(self).has_field(k) || k == field@) by {
                        if self.has_field(k) {
                            let e = choose|e: int|
                                0 <= e < self.fields@.len() && self.fields@[e].key@ == k;
                            assert(pre[e].key@ == k);
                            assert(old(self).has_field(k));
                        }
                        if old(self).has_field(k) {
                            let e = choose|e: int|
                                0 <= e < pre.len() && pre[e].key@ == k;
                            assert(self.fields@[e].key@ == k);
                            assert(self.has_field(k));
                        }
                    }
                    assert(self.fields@[i as int].key@ == field@);
                    self.lemma_field_at(i as int);
                    assert(self.field_at(field@) == i);
                    assert(self.fields@[i as int].index == ix);
                    assert forall|k: Seq<u8>|
                        old(self).has_field(k) && k != field@
                        implies self.fields@[self.field_at(k)] == old(self).fields@[old(
                            self).field_at(k)] by {
                        let e = choose|e: int| 0 <= e < pre.len() && pre[e].key@ == k;
                        old(self).lemma_field_at(e);
                        assert(old(self).field_at(k) == e);
                        assert(e != i as int);
                        assert(self.fields@[e] == pre[e]);
                        self.lemma_field_at(e);
                        assert(self.field_at(k) == e);
                    }
                }
                Ok(())
            },
            None => {
                let ghost pre = self.fields@;
                self.fields.push(FieldEntry { key: field, index: ix });
                proof {
                    let ghost ei = pre.len() as int;
                    assert(self.fields@[ei].key@ == field@);
                    assert forall|a: int, b: int|
                        0 <= a < b < self.fields@.len()
                        implies (#[trigger] self.fields@[a]).key@ != (
                        #[trigger] self.fields@[b]).key@ by {
                        if b < ei {
                            assert(self.fields@[a] == pre[a]);
                            assert(self.fields@[b] == pre[b]);
                        } else {
                            assert(self.fields@[a] == pre[a]);
                            if self.fields@[a].key@ == field@ {
                                assert(old(self).has_field(field@));
                            }
                        }
                    }
                    assert forall|k: Seq<u8>|
                        self.has_field(k) <==> (old(self).has_field(k) || k == field@) by {
                        if self.has_field(k) {
                            let e = choose|e: int|
                                0 <= e < self.fields@.len() && self.fields@[e].key@ == k;
                            if e < ei {
                                assert(pre[e].key@ == k);
                                assert(old(self).has_field(k));
                            } else {
                                assert(k == field@);
                            }
                        }
                        if old(self).has_field(k) {
                            let e = choose|e: int| 0 <= e < pre.len() && pre[e].key@ == k;
                            assert(self.fields@[e].key@ == k);
                            assert(self.has_field(k));
                        }
                    }
                    assert(self.has_field(field@));
                    self.lemma_field_at(ei);
                    assert(self.field_at(field@) == ei);
                    assert(self.fields@[ei].index == ix);
                    assert forall|k: Seq<u8>|
                        old(self).has_field(k) && k != field@
                        implies self.fields@[self.field_at(k)] == old(self).fields@[old(
                            self).field_at(k)] by {
                        let e = choose|e: int| 0 <= e < pre.len() && pre[e].key@ == k;
                        old(self).lemma_field_at(e);
                        assert(old(self).field_at(k) == e);
                        assert(self.fields@[e] == pre[e]);
                        self.lemma_field_at(e);
                        assert(self.field_at(k) == e);
                    }
                }
                Ok(())
            },
        }
    }

    /// Drop the index of `field` (not an error when none exists); every
    /// other field keeps its entry.
    pub fn drop_index(&mut self, field: &Vec<u8>) -> (r: Result<(), OperationError>)
        requires
            old(self).wf(),
        ensures
            final(self).wf(),
            r is Ok,
            !final(self).has_field(field@),
            forall|k: Seq<u8>|
                final(self).has_field(k) <==> (old(self).has_field(k) && k != field@),
            forall|k: Seq<u8>|
                old(self).has_field(k) && k != field@
                    ==> final(self).fields@[final(self).field_at(k)] == old(self).fields@[old(
                        self).field_at(k)],
            !old(self).has_field(field@) ==> *final(self) == *old(self),
            final(self).payloads == old(self).payloads,
    {
        match self.find_field(field) {
            None => {
                proof {
                    assert forall|k: Seq<u8>|
                        self.has_field(k) <==> (old(self).has_field(k) && k != field@) by {}
                }
                Ok(())
            },
            Some(i) => {
                let ghost pre = self.fields@;
                self.fields.remove(i);
                proof {
                    assert(self.fields@ =~= pre.remove(i as int));
                    assert forall|a: int, b: int|
                        0 <= a < b < self.fields@.len()
                        implies (#[trigger] self.fields@[a]).key@ != (
                        #[trigger] self.fields@[b]).key@ by {
                        let a0 = if a < i as int { a } else { a + 1 };
                        let b0 = if b < i as int { b } else { b + 1 };
                        assert(self.fields@[a] == pre[a0]);
                        assert(self.fields@[b] == pre[b0]);
                        assert(pre[a0].key@ != pre[b0].key@);
                    }
                    assert forall|j: int|
                        0 <= j < self.fields@.len()
                        implies (#[trigger] self.fields@[j]).index.wf() by {
                        let j0 = if j < i as int { j } else { j + 1 };
                        assert(self.fields@[j] == pre[j0]);
                    }
                    assert forall|k: Seq<u8>|
                        self.has_field(k) <==> (old(self).has_field(k) && k != field@) by {
                        if self.has_field(k) {
                            let e = choose|e: int|
                                0 <= e < self.fields@.len() && self.fields@[e].key@ == k;
                            let e0 = if e < i as int { e } else { e + 1 };
                            assert(self.fields@[e] == pre[e0]);
                            assert(old(self).has_field(k));
                            if k == field@ {
                                assert(e0 != i as int);
                                assert(pre[e0].key@ == pre[i as int].key@);
                                assert(false);
                            }
                        }
                        if old(self).has_field(k) && k != field@ {
                            let e = choose|e: int| 0 <= e < pre.len() && pre[e].key@ == k;
                            assert(e != i as int);
                            if e < i as int {
                                assert(self.fields@[e].key@ == k);
                            } else {
                                assert(self.fields@[e - 1].key@ == k);
                            }
                            assert(self.has_field(k));
                        }
                    }
                    assert forall|k: Seq<u8>|
                        old(self).has_field(k) && k != field@
                        implies self.fields@[self.field_at(k)] == old(self).fields@[old(
                            self).field_at(k)] by {
                        let e = choose|e: int| 0 <= e < pre.len() && pre[e].key@ == k;
                        old(self).lemma_field_at(e);
                        assert(old(self).field_at(k) == e);
                        assert(e != i as int);
                        let e2 = if e < i as int { e } else { e - 1 };
                        assert(self.fields@[e2] == pre[e]);
                        self.lemma_field_at(e2);
                        assert(self.field_at(k) == e2);
                    }
                }
                Ok(())
            },
        }
    }

    /// Drop the index of `field` exactly when its schema is incompatible
    /// with `schema`; a compatible or absent index leaves the state as it
    /// was.
    pub fn drop_index_if_incompatible(&mut self, field: &Vec<u8>, schema: &TokenizerConfig) -> (r:
        Result<(), OperationError>)
        requires
            old(self).wf(),
        ensures
            final(self).wf(),
            r is Ok,
            !old(self).has_field(field@) ==> *final(self) == *old(self),
            old(self).has_field(field@) && config_eq(
                &old(self).field_index(field@).config,
                schema,
            ) ==> *final(self) == *old(self),
            old(self).has_field(field@) && !config_eq(
                &old(self).field_index(field@).config,
                schema,
            ) ==> {
                &&& !final(self).has_field(field@)
                &&& (forall|k: Seq<u8>|
                    final(self).has_field(k) <==> (old(self).has_field(k) && k != field@))
                &&& (forall|k: Seq<u8>|
                    old(self).has_field(k) && k != field@
                        ==> final(self).fields@[final(self).field_at(k)] == old(self).fields@[old(
                            self).field_at(k)])
            },
            final(self).payloads == old(self).payloads,
    {
        match self.find_field(field) {
            None => Ok(()),
            Some(i) => {
                proof {
                    self.lemma_field_at(i as int);
                }
                let compatible: bool;
                {
                    let FieldIndex::FullText(fx) = &self.fields[i].index;
                    proof {
                        assert(*fx == self.field_index(field@));
                    }
                    compatible = config_matches(&fx.config, schema);
                }
                if compatible {
                    Ok(())
                } else {
                    self.drop_index(field)
                }
            },
        }
    }
}


/// Whether `pays` holds an entry for point `q`.
pub open spec fn spec_has_pay(pays: Seq<(u32, Vec<u8>)>, q: u32) -> bool {
    exists|i: int| 0 <= i < pays.len() && pays[i].0 == q
}

impl PayloadIndexState {
    /// If point `p` stands at payload index `i`, then `payload_at` picks `i`.
    pub proof fn lemma_payload_at(&self, i: int)
        requires
            self.wf(),
            0 <= i < self.payloads@.len(),
        ensures
            self.has_payload(self.payloads@[i].0),
            self.payload_at(self.payloads@[i].0) == i,
    {
        let p = self.payloads@[i].0;
        assert(exists|j: int| 0 <= j < self.payloads@.len() && self.payloads@[j].0 == p);
        let j = self.payload_at(p);
        if j < i {
            assert(self.payloads@[j].0 != self.payloads@[i].0);
        } else if j > i {
            assert(self.payloads@[i].0 != self.payloads@[j].0);
        }
    }

    /// The payload text of point `p`, if it has one.
    pub fn get_payload(&self, p: u32, hw: &mut HardwareCounter) -> (r: Option<Vec<u8>>)
        requires
            self.wf(),
        ensures
            match r {
                Some(v) => self.has_payload(p) && v@ == self.payloads@[self.payload_at(p)].1@,
                None => !self.has_payload(p),
            },
            final(hw).cost >= old(hw).cost,
    {
        hw.charge(1);
        match self.find_payload(p) {
            Some(i) => {
                proof {
                    self.lemma_payload_at(i as int);
                }
                let v = self.payloads[i].1.clone();
                proof {
                    assert(v@ == self.payloads@[i as int].1@);
                }
                Some(v)
            },
            None => None,
        }
    }

    /// Assign the payload text of point `p`, replacing any prior value, and
    /// bring every mutable field index in step with the new text: in each,
    /// `p`'s tokens become exactly the new text's token stream under that
    /// field's schema, and other points are untouched.  Frozen field
    /// indexes are left exactly as they are.
    pub fn overwrite_payload(&mut self, p: u32, text: &Vec<u8>, hw: &mut HardwareCounter) -> (r:
        Result<(), OperationError>)
        requires
            old(self).wf(),
            text@.len() <= u32::MAX,
        ensures
            final(self).wf(),
            r is Ok,
            final(self).has_payload(p),
            forall|q: u32| final(self).has_payload(q) <==> (old(self).has_payload(q) || q == p),
            final(self).payloads@[final(self).payload_at(p)].1@ == text@,
            final(self).fields@.len() == old(self).fields@.len(),
            forall|f: int|
                0 <= f < final(self).fields@.len()
                    ==> (#[trigger] final(self).fields@[f]).key@ == old(self).fields@[f].key@,
            forall|f: int|
                0 <= f < old(self).fields@.len() && (#[trigger] old(
                    self).fields@[f]).index.text().is_mutable() ==> {
                    let oldfx = old(self).fields@[f].index.text();
                    let newfx = final(self).fields@[f].index.text();
                    &&& newfx.is_mutable()
                    &&& newfx.config == oldfx.config
                    &&& (forall|t: Seq<u8>|
                        newfx.member(t, p) <==> spec_tokenize(text@, oldfx.config).contains(t))
                    &&& (forall|t: Seq<u8>, q: u32|
                        q != p ==> (newfx.member(t, q) <==> oldfx.member(t, q)))
                },
            forall|f: int|
                0 <= f < old(self).fields@.len() && !(#[trigger] old(
                    self).fields@[f]).index.text().is_mutable()
                    ==> final(self).fields@[f] == old(self).fields@[f],
            final(hw).cost >= old(hw).cost,
    {
        hw.charge(text.len());
        // Bring each mutable field index in step with the new text.
        let nf = self.fields.len();
        let ghost prefields = self.fields@;
        let mut f: usize = 0;
        while f < nf
            invariant
                f <= nf,
                nf == self.fields@.len(),
                self.fields@.len() == prefields.len(),
                forall|g: int|
                    0 <= g < self.fields@.len()
                        ==> (#[trigger] self.fields@[g]).key@ == prefields[g].key@
                            && self.fields@[g].index.wf(),
                forall|g: int| f <= g < nf ==> (#[trigger] self.fields@[g]) == prefields[g],
                forall|g: int|
                    0 <= g < f && (#[trigger] prefields[g]).index.text().is_mutable() ==> {
                        let oldfx = prefields[g].index.text();
                        let newfx = self.fields@[g].index.text();
                        &&& newfx.is_mutable()
                        &&& newfx.config == oldfx.config
                        &&& (forall|t: Seq<u8>|
                            newfx.member(t, p) <==> spec_tokenize(text@, oldfx.config).contains(
                                t))
                        &&& (forall|t: Seq<u8>, q: u32|
                            q != p ==> (newfx.member(t, q) <==> oldfx.member(t, q)))
                    },
                forall|g: int|
                    0 <= g < f && !(#[trigger] prefields[g]).index.text().is_mutable()
                        ==> self.fields@[g] == prefields[g],
                self.payloads@ == old(self).payloads@,
                text@.len() <= u32::MAX,
                hw.cost >= old(hw).cost,
            decreases nf - f,
        {
            let ghost pref = self.fields@;
            let FieldIndex::FullText(fx) = &mut self.fields[f].index;
            proof {
                assert(pref[f as int] == prefields[f as int]);
            }
            // A frozen field index refuses the write and stays as it is.
            let res = fx.insert_document(p, text);
            let _ = res;
            proof {
                assert forall|g: int|
                    0 <= g < self.fields@.len()
                    implies (#[trigger] self.fields@[g]).key@ == prefields[g].key@
                        && self.fields@[g].index.wf() by {
                    if g != f {
                        assert(self.fields@[g] == pref[g]);
                    }
                }
                assert forall|g: int|
                    f + 1 <= g < nf implies (#[trigger] self.fields@[g]) == prefields[g] by {
                    assert(self.fields@[g] == pref[g]);
                }
                if prefields[f as int].index.text().is_mutable() {
                    assert(res is Ok);
                    assert(self.fields@[f as int].index.text().is_mutable());
                } else {
                    assert(res is Err);
                    assert(self.fields@[f as int].index.text()
                        == prefields[f as int].index.text());
                    assert(self.fields@[f as int].key@ == prefields[f as int].key@);
                    assert(self.fields@[f as int] == prefields[f as int]);
                }
                assert forall|g: int|
                    0 <= g < f + 1 && (#[trigger] prefields[g]).index.text().is_mutable()
                    implies {
                        let oldfx = prefields[g].index.text();
                        let newfx = self.fields@[g].index.text();
                        &&& newfx.is_mutable()
                        &&& newfx.config == oldfx.config
                        &&& (forall|t: Seq<u8>|
                            newfx.member(t, p) <==> spec_tokenize(text@, oldfx.config).contains(
                                t))
                        &&& (forall|t: Seq<u8>, q: u32|
                            q != p ==> (newfx.member(t, q) <==> oldfx.member(t, q)))
                    } by {
                    if g < f as int {
                        assert(self.fields@[g] == pref[g]);
                    }
                }
                assert forall|g: int|
                    0 <= g < f + 1 && !(#[trigger] prefields[g]).index.text().is_mutable()
                    implies self.fields@[g] == prefields[g] by {
                    if g < f as int {
                        assert(self.fields@[g] == pref[g]);
                    }
                }
            }
            f += 1;
        }
        proof {
            assert(self.wf()) by {
                assert forall|a: int, b: int|
                    0 <= a < b < self.fields@.len()
                    implies (#[trigger] self.fields@[a]).key@ != (
                    #[trigger] self.fields@[b]).key@ by {
                    assert(prefields[a].key@ != prefields[b].key@);
                }
            }
        }
        let ghost prepay = self.payloads@;
        proof {
            assert(prepay == old(self).payloads@);
        }
        match self.find_payload(p) {
            Some(i) => {
                let t2 = crate::immutable_index::clone_bytes_pub(text);
                self.payloads[i] = (p, t2);
                proof {
                    assert(self.payloads@ =~= prepay.update(i as int, self.payloads@[i as int]));
                    assert forall|a: int, b: int|
                        0 <= a < b < self.payloads@.len()
                        implies self.payloads@[a].0 != self.payloads@[b].0 by {
                        if a != i && b != i {
                            assert(self.payloads@[a] == prepay[a]);
                            assert(self.payloads@[b] == prepay[b]);
                        } else if a == i {
                            assert(self.payloads@[b] == prepay[b]);
                            assert(prepay[a].0 == p);
                        } else {
                            assert(self.payloads@[a] == prepay[a]);
                            assert(prepay[b].0 == p);
                        }
                    }
                    assert forall|q: u32|
                        self.has_payload(q) <==> (spec_has_pay(prepay, q) || q == p) by {
                        if self.has_payload(q) {
                            let e = choose|e: int|
                                0 <= e < self.payloads@.len() && self.payloads@[e].0 == q;
                            assert(prepay[e].0 == q || q == p);
                        }
                        if spec_has_pay(prepay, q) {
                            let e = choose|e: int| 0 <= e < prepay.len() && prepay[e].0 == q;
                            if e != i as int {
                                assert(self.payloads@[e].0 == q);
                            } else {
                                assert(q == p);
                                assert(self.payloads@[i as int].0 == p);
                            }
                            assert(self.has_payload(q));
                        }
                        if q == p {
                            assert(self.payloads@[i as int].0 == p);
                            assert(self.has_payload(q));
                        }
                    }
                    self.lemma_payload_at(i as int);
                }
            },
            None => {
                let t2 = crate::immutable_index::clone_bytes_pub(text);
                self.payloads.push((p, t2));
                proof {
                    let ghost ei = prepay.len() as int;
                    assert(self.payloads@[ei].0 == p);
                    assert forall|a: int, b: int|
                        0 <= a < b < self.payloads@.len()
                        implies self.payloads@[a].0 != self.payloads@[b].0 by {
                        if b < ei {
                            assert(self.payloads@[a] == prepay[a]);
                            assert(self.payloads@[b] == prepay[b]);
                        } else {
                            assert(self.payloads@[a] == prepay[a]);
                            if prepay[a].0 == p {
                                assert(old(self).has_payload(p));
                            }
                        }
                    }
                    assert forall|q: u32|
                        self.has_payload(q) <==> (spec_has_pay(prepay, q) || q == p) by {
                        if self.has_payload(q) {
                            let e = choose|e: int|
                                0 <= e < self.payloads@.len() && self.payloads@[e].0 == q;
                            if e < ei {
                                assert(prepay[e].0 == q);
                            } else {
                                assert(q == p);
                            }
                        }
                        if spec_has_pay(prepay, q) {
                            let e = choose|e: int| 0 <= e < prepay.len() && prepay[e].0 == q;
                            assert(self.payloads@[e].0 == q);
                            assert(self.has_payload(q));
                        }
                        if q == p {
                            assert(self.payloads@[ei].0 == p);
                            assert(self.has_payload(q));
                        }
                    }
                    self.lemma_payload_at(ei);
                }
            },
        }
        proof {
            assert forall|q: u32|
                old(self).has_payload(q) <==> spec_has_pay(prepay, q) by {
                if old(self).has_payload(q) {
                    let e = choose|e: int|
                        0 <= e < old(self).payloads@.len() && old(self).payloads@[e].0 == q;
                    assert(prepay[e].0 == q);
                }
                if spec_has_pay(prepay, q) {
                    let e = choose|e: int| 0 <= e < prepay.len() && prepay[e].0 == q;
                    assert(old(self).payloads@[e].0 == q);
                }
            }
        }
        proof {
            assert forall|q: u32|
                self.has_payload(q) <==> (old(self).has_payload(q) || q == p) by {
                if self.has_payload(q) {
                    let e = choose|e: int|
                        0 <= e < self.payloads@.len() && self.payloads@[e].0 == q;
                    assert(self.payloads@[e].0 == q);
                }
                assert(self.has_payload(q) <==> (spec_has_pay(prepay, q) || q == p));
                assert(old(self).has_payload(q) <==> spec_has_pay(prepay, q));
            }
        }
        Ok(())
    }

    /// Assign payload: for a text payload this replaces the value, as
    /// `overwrite_payload` does.
    pub fn set_payload(&mut self, p: u32, text: &Vec<u8>, hw: &mut HardwareCounter) -> (r: Result<
        (), OperationError>)
        requires
            old(self).wf(),
            text@.len() <= u32::MAX,
        ensures
            final(self).wf(),
            r is Ok,
            final(self).has_payload(p),
            forall|q: u32| final(self).has_payload(q) <==> (old(self).has_payload(q) || q == p),
            final(self).payloads@[final(self).payload_at(p)].1@ == text@,
            final(self).fields@.len() == old(self).fields@.len(),
            forall|f: int|
                0 <= f < final(self).fields@.len()
                    ==> (#[trigger] final(self).fields@[f]).key@ == old(self).fields@[f].key@,
            final(hw).cost >= old(hw).cost,
    {
        self.overwrite_payload(p, text, hw)
    }

    /// Drop point `p`'s payload and remove it from every mutable field
    /// index: afterwards no mutable field index holds `p`, other points are
    /// untouched, and frozen field indexes are left exactly as they are.
    /// Returns the prior payload; `None` (not an error) when the point had
    /// none.
    pub fn clear_payload(&mut self, p: u32, hw: &mut HardwareCounter) -> (r: Result<Option<Vec<u8>>,
        OperationError>)
        requires
            old(self).wf(),
        ensures
            final(self).wf(),
            r is Ok,
            !final(self).has_payload(p),
            forall|q: u32| final(self).has_payload(q) <==> (old(self).has_payload(q) && q != p),
            r->Ok_0 is Some <==> old(self).has_payload(p),
            r->Ok_0 matches Some(v)
                ==> v@ == old(self).payloads@[old(self).payload_at(p)].1@,
            final(self).fields@.len() == old(self).fields@.len(),
            forall|f: int|
                0 <= f < final(self).fields@.len()
                    ==> (#[trigger] final(self).fields@[f]).key@ == old(self).fields@[f].key@,
            forall|f: int|
                0 <= f < old(self).fields@.len() && (#[trigger] old(
                    self).fields@[f]).index.text().is_mutable() ==> {
                    let oldfx = old(self).fields@[f].index.text();
                    let newfx = final(self).fields@[f].index.text();
                    &&& newfx.is_mutable()
                    &&& newfx.config == oldfx.config
                    &&& (forall|t: Seq<u8>| !newfx.member(t, p))
                    &&& (forall|t: Seq<u8>, q: u32|
                        q != p ==> (newfx.member(t, q) <==> oldfx.member(t, q)))
                },
            forall|f: int|
                0 <= f < old(self).fields@.len() && !(#[trigger] old(
                    self).fields@[f]).index.text().is_mutable()
                    ==> final(self).fields@[f] == old(self).fields@[f],
            final(hw).cost >= old(hw).cost,
    {
        hw.charge(1);
        let nf = self.fields.len();
        let ghost prefields = self.fields@;
        let mut f: usize = 0;
        while f < nf
            invariant
                f <= nf,
                nf == self.fields@.len(),
                self.fields@.len() == prefields.len(),
                forall|g: int|
                    0 <= g < self.fields@.len()
                        ==> (#[trigger] self.fields@[g]).key@ == prefields[g].key@
                            && self.fields@[g].index.wf(),
                forall|g: int| f <= g < nf ==> (#[trigger] self.fields@[g]) == prefields[g],
                forall|g: int|
                    0 <= g < f && (#[trigger] prefields[g]).index.text().is_mutable() ==> {
                        let oldfx = prefields[g].index.text();
                        let newfx = self.fields@[g].index.text();
                        &&& newfx.is_mutable()
                        &&& newfx.config == oldfx.config
                        &&& (forall|t: Seq<u8>| !newfx.member(t, p))
                        &&& (forall|t: Seq<u8>, q: u32|
                            q != p ==> (newfx.member(t, q) <==> oldfx.member(t, q)))
                    },
                forall|g: int|
                    0 <= g < f && !(#[trigger] prefields[g]).index.text().is_mutable()
                        ==> self.fields@[g] == prefields[g],
                self.payloads@ == old(self).payloads@,
                hw.cost >= old(hw).cost,
            decreases nf - f,
        {
            let ghost pref = self.fields@;
            let FieldIndex::FullText(fx) = &mut self.fields[f].index;
            proof {
                assert(pref[f as int] == prefields[f as int]);
            }
            // A frozen field index refuses the delete and stays as it is.
            let res = fx.remove_document(p);
            let _ = res;
            proof {
                assert forall|g: int|
                    0 <= g < self.fields@.len()
                    implies (#[trigger] self.fields@[g]).key@ == prefields[g].key@
                        && self.fields@[g].index.wf() by {
                    if g != f {
                        assert(self.fields@[g] == pref[g]);
                    }
                }
                assert forall|g: int|
                    f + 1 <= g < nf implies (#[trigger] self.fields@[g]) == prefields[g] by {
                    assert(self.fields@[g] == pref[g]);
                }
                if prefields[f as int].index.text().is_mutable() {
                    assert(res is Ok);
                    assert(self.fields@[f as int].index.text().is_mutable());
                } else {
                    assert(res is Err);
                    assert(self.fields@[f as int].index.text()
                        == prefields[f as int].index.text());
                    assert(self.fields@[f as int].key@ == prefields[f as int].key@);
                    assert(self.fields@[f as int] == prefields[f as int]);
                }
                assert forall|g: int|
                    0 <= g < f + 1 && (#[trigger] prefields[g]).index.text().is_mutable()
                    implies {
                        let oldfx = prefields[g].index.text();
                        let newfx = self.fields@[g].index.text();
                        &&& newfx.is_mutable()
                        &&& newfx.config == oldfx.config
                        &&& (forall|t: Seq<u8>| !newfx.member(t, p))
                        &&& (forall|t: Seq<u8>, q: u32|
                            q != p ==> (newfx.member(t, q) <==> oldfx.member(t, q)))
                    } by {
                    if g < f as int {
                        assert(self.fields@[g] == pref[g]);
                    }
                }
                assert forall|g: int|
                    0 <= g < f + 1 && !(#[trigger] prefields[g]).index.text().is_mutable()
                    implies self.fields@[g] == prefields[g] by {
                    if g < f as int {
                        assert(self.fields@[g] == pref[g]);
                    }
                }
            }
            f += 1;
        }
        proof {
            assert(self.wf()) by {
                assert forall|a: int, b: int|
                    0 <= a < b < self.fields@.len()
                    implies (#[trigger] self.fields@[a]).key@ != (
                    #[trigger] self.fields@[b]).key@ by {
                    assert(prefields[a].key@ != prefields[b].key@);
                }
            }
        }
        let ghost prepay = self.payloads@;
        proof {
            assert(prepay == old(self).payloads@);
        }
        let out: Option<Vec<u8>>;
        match self.find_payload(p) {
            None => {
                out = None;
                proof {
                    assert(!spec_has_pay(prepay, p)) by {
                        if spec_has_pay(prepay, p) {
                            let e = choose|e: int| 0 <= e < prepay.len() && prepay[e].0 == p;
                            assert(self.payloads@[e].0 == p);
                            assert(self.has_payload(p));
                        }
                    }
                    assert forall|q: u32|
                        self.has_payload(q) <==> (spec_has_pay(prepay, q) && q != p) by {
                        if self.has_payload(q) {
                            let e = choose|e: int|
                                0 <= e < self.payloads@.len() && self.payloads@[e].0 == q;
                            assert(prepay[e].0 == q);
                        }
                        if spec_has_pay(prepay, q) && q != p {
                            let e = choose|e: int| 0 <= e < prepay.len() && prepay[e].0 == q;
                            assert(self.payloads@[e].0 == q);
                            assert(self.has_payload(q));
                        }
                    }
                }
            },
            Some(i) => {
                proof {
                    assert(prepay[i as int].0 == p);
                    assert(spec_has_pay(prepay, p));
                    old(self).lemma_payload_at(i as int);
                    assert(old(self).payload_at(p) == i);
                }
                let entry = self.payloads.remove(i);
                out = Some(entry.1);
                proof {
                    assert(self.payloads@ =~= prepay.remove(i as int));
                    assert forall|a: int, b: int|
                        0 <= a < b < self.payloads@.len()
                        implies self.payloads@[a].0 != self.payloads@[b].0 by {
                        let a0 = if a < i as int { a } else { a + 1 };
                        let b0 = if b < i as int { b } else { b + 1 };
                        assert(self.payloads@[a] == prepay[a0]);
                        assert(self.payloads@[b] == prepay[b0]);
                    }
                    assert forall|q: u32|
                        self.has_payload(q) <==> (spec_has_pay(prepay, q) && q != p) by {
                        if self.has_payload(q) {
                            let e = choose|e: int|
                                0 <= e < self.payloads@.len() && self.payloads@[e].0 == q;
                            let e0 = if e < i as int { e } else { e + 1 };
                            assert(self.payloads@[e] == prepay[e0]);
                            assert(spec_has_pay(prepay, q));
                            if q == p {
                                assert(e0 != i as int);
                                assert(prepay[e0].0 == prepay[i as int].0);
                                assert(false);
                            }
                        }
                        if spec_has_pay(prepay, q) && q != p {
                            let e = choose|e: int| 0 <= e < prepay.len() && prepay[e].0 == q;
                            assert(e != i as int);
                            if e < i as int {
                                assert(self.payloads@[e].0 == q);
                            } else {
                                assert(self.payloads@[e - 1].0 == q);
                            }
                            assert(self.has_payload(q));
                        }
                    }
                }
            },
        }
        proof {
            assert forall|q: u32|
                old(self).has_payload(q) <==> spec_has_pay(prepay, q) by {
                if old(self).has_payload(q) {
                    let e = choose|e: int|
                        0 <= e < old(self).payloads@.len() && old(self).payloads@[e].0 == q;
                    assert(prepay[e].0 == q);
                }
                if spec_has_pay(prepay, q) {
                    let e = choose|e: int| 0 <= e < prepay.len() && prepay[e].0 == q;
                    assert(old(self).payloads@[e].0 == q);
                }
            }
        }
        proof {
            assert forall|q: u32|
                self.has_payload(q) <==> (old(self).has_payload(q) && q != p) by {
                if self.has_payload(q) {
                    let e = choose|e: int|
                        0 <= e < self.payloads@.len() && self.payloads@[e].0 == q;
                    assert(self.payloads@[e].0 == q);
                }
                assert(self.has_payload(q) <==> (spec_has_pay(prepay, q) && q != p));
                assert(old(self).has_payload(q) <==> spec_has_pay(prepay, q));
            }
        }
        Ok(out)
    }

    /// All point ids matching the conjunctive text query on `field`,
    /// ascending: exactly the points whose indexed text holds every token of
    /// `text` under the field's tokenizer.  Empty when the field is not
    /// indexed or the query tokenizes to nothing.
    pub fn query_points(&self, field: &Vec<u8>, text: &Vec<u8>, hw: &mut HardwareCounter) -> (r:
        Vec<u32>)
        requires
            self.wf(),
        ensures
            strictly_sorted(r@),
            !self.has_field(field@) ==> r@.len() == 0,
            self.has_field(field@) ==> {
                let fx = self.field_index(field@);
                &&& (fx.tokens_of(text@).len() == 0 ==> r@.len() == 0)
                &&& (fx.tokens_of(text@).len() > 0 ==> forall|p: u32|
                    r@.contains(p) <==> matches_and(&fx.backend, fx.tokens_of(text@), p))
            },
            final(hw).cost >= old(hw).cost,
    {
        match self.find_field(field) {
            None => Vec::new(),
            Some(i) => {
                proof {
                    self.lemma_field_at(i as int);
                }
                let FieldIndex::FullText(fx) = &self.fields[i].index;
                proof {
                    assert(*fx == self.field_index(field@));
                }
                fx.query(text, hw)
            },
        }
    }

    /// The (min, max) cardinality bound for the text query on `field`,
    /// with the estimator's full promise on an indexed field; (0, 0) when
    /// the field is not indexed.
    pub fn estimate_cardinality(&self, field: &Vec<u8>, text: &Vec<u8>, hw: &mut HardwareCounter)
        -> (r: CardinalityEstimation)
        requires
            self.wf(),
        ensures
            !self.has_field(field@) ==> r.min == 0 && r.max == 0,
            self.has_field(field@) ==> {
                let fx = self.field_index(field@);
                estimate_ok(&fx.backend, fx.tokens_of(text@), r.min as int, r.max as int)
            },
            final(hw).cost >= old(hw).cost,
    {
        match self.find_field(field) {
            None => CardinalityEstimation { min: 0, max: 0 },
            Some(i) => {
                proof {
                    self.lemma_field_at(i as int);
                }
                let FieldIndex::FullText(fx) = &self.fields[i].index;
                proof {
                    assert(*fx == self.field_index(field@));
                }
                fx.estimate_cardinality(text, hw)
            },
        }
    }

    /// Cardinality of a nested-path condition: the nested path resolves to
    /// a field key, and the same conservative bound applies.
    pub fn estimate_nested_cardinality(
        &self,
        nested_path: &Vec<u8>,
        text: &Vec<u8>,
        hw: &mut HardwareCounter,
    ) -> (r: CardinalityEstimation)
        requires
            self.wf(),
        ensures
            !self.has_field(nested_path@) ==> r.min == 0 && r.max == 0,
            self.has_field(nested_path@) ==> {
                let fx = self.field_index(nested_path@);
                estimate_ok(&fx.backend, fx.tokens_of(text@), r.min as int, r.max as int)
            },
            final(hw).cost >= old(hw).cost,
    {
        self.estimate_cardinality(nested_path, text, hw)
    }

    /// The number of points indexed under `field`; zero when not indexed.
    pub fn indexed_points(&self, field: &Vec<u8>) -> (r: usize)
        requires
            self.wf(),
        ensures
            !self.has_field(field@) ==> r == 0,
            self.has_field(field@) ==> r == self.field_index(field@).backend.points_count(),
    {
        match self.find_field(field) {
            None => 0,
            Some(i) => {
                proof {
                    self.lemma_field_at(i as int);
                }
                let FieldIndex::FullText(fx) = &self.fields[i].index;
                proof {
                    assert(*fx == self.field_index(field@));
                }
                match &fx.backend {
                    IndexBackend::Mutable(m) => m.point_docs.len(),
                    IndexBackend::Immutable(im) => im.point_docs.len(),
                }
            },
        }
    }
}


impl PayloadIndexState {
    /// The on-disk artifact names of this state.  The in-memory state owns
    /// no files itself (persistence goes through a field index's byte
    /// image), so the list is empty.
    pub fn files(&self) -> (r: Vec<Vec<u8>>)
        ensures
            r@.len() == 0,
    {
        Vec::new()
    }

    /// The artifacts that never change once written; none by default.
    pub fn immutable_files(&self) -> (r: Vec<Vec<u8>>)
        ensures
            r@.len() == 0,
    {
        Vec::new()
    }

    /// The versioned artifacts, with their sequence numbers; none by
    /// default.
    pub fn versioned_files(&self) -> (r: Vec<(Vec<u8>, u64)>)
        ensures
            r@.len() == 0,
    {
        Vec::new()
    }
}


impl PayloadIndexState {
    /// Mark `field` as indexed under `schema`: build its index from the
    /// current payloads and install it, unless the field is already indexed
    /// (under whatever schema it has).
    pub fn set_indexed(&mut self, field: &Vec<u8>, schema: &TokenizerConfig, hw: &mut
        HardwareCounter) -> (r: Result<(), OperationError>)
        requires
            old(self).wf(),
            forall|i: int|
                0 <= i < old(self).payloads@.len() ==> (#[trigger] old(self).payloads@[i]).1@.len()
                    <= u32::MAX,
        ensures
            final(self).wf(),
            r is Ok,
            final(self).has_field(field@),
            forall|k: Seq<u8>|
                final(self).has_field(k) <==> (old(self).has_field(k) || k == field@),
            !old(self).has_field(field@) ==> {
                let fx = final(self).field_index(field@);
                &&& fx.is_mutable()
                &&& config_eq(&fx.config, schema)
                &&& forall|t: Seq<u8>, p: u32|
                    fx.member(t, p) <==> pay_member(old(self).payloads@, *schema, t, p)
            },
            final(hw).cost >= old(hw).cost,
    {
        match self.build_index(field, schema, hw) {
            BuildIndexResult::Built(artifacts) => {
                let ghost art0 = artifacts@[0];
                let key = crate::immutable_index::clone_bytes_pub(field);
                let r = self.apply_index(key, artifacts);
                proof {
                    assert(self.fields@[self.field_at(field@)].index == art0);
                    assert(self.field_index(field@) == art0.text());
                }
                r
            },
            BuildIndexResult::AlreadyBuilt => {
                proof {
                    assert forall|k: Seq<u8>|
                        self.has_field(k) <==> (old(self).has_field(k) || k == field@) by {}
                }
                Ok(())
            },
            BuildIndexResult::IncompatibleSchema => {
                proof {
                    assert forall|k: Seq<u8>|
                        self.has_field(k) <==> (old(self).has_field(k) || k == field@) by {}
                }
                Ok(())
            },
        }
    }
}


impl PayloadIndexState {
    /// Enumerate the indexed fields: every field key with (a copy of) its
    /// schema, in field order.
    pub fn indexed_fields(&self) -> (r: Vec<(Vec<u8>, TokenizerConfig)>)
        requires
            self.wf(),
        ensures
            r@.len() == self.fields@.len(),
            forall|i: int|
                0 <= i < r@.len() ==> (#[trigger] r@[i]).0@ == self.fields@[i].key@
                    && config_eq(&r@[i].1, &self.fields@[i].index.text().config),
    {
        let mut out: Vec<(Vec<u8>, TokenizerConfig)> = Vec::new();
        let n = self.fields.len();
        let mut i: usize = 0;
        while i < n
            invariant
                i <= n,
                self.wf(),
                n == self.fields@.len(),
                out@.len() == i,
                forall|j: int|
                    0 <= j < i ==> (#[trigger] out@[j]).0@ == self.fields@[j].key@
                        && config_eq(&out@[j].1, &self.fields@[j].index.text().config),
            decreases n - i,
        {
            let key = crate::immutable_index::clone_bytes_pub(&self.fields[i].key);
            let FieldIndex::FullText(fx) = &self.fields[i].index;
            let schema = clone_config(&fx.config);
            out.push((key, schema));
            i += 1;
        }
        out
    }

    /// The payload of `p`, for sequential access: the in-memory store has
    /// no faster sequential path, so this is `get_payload`'s contract.
    pub fn get_payload_sequential(&self, p: u32, hw: &mut HardwareCounter) -> (r: Option<Vec<u8>>)
        requires
            self.wf(),
        ensures
            match r {
                Some(v) => self.has_payload(p) && v@ == self.payloads@[self.payload_at(p)].1@,
                None => !self.has_payload(p),
            },
            final(hw).cost >= old(hw).cost,
    {
        self.get_payload(p, hw)
    }
}

} // verus!
