//! Tokenization: text bytes to a finite stream of normalized tokens.
//!
//! A token is a maximal run of ASCII alphanumeric bytes, optionally
//! lowercased.  Tokens shorter than the configured minimum, longer than the
//! configured maximum, or present in the stop-word set are dropped after
//! normalization.  The index of a token in the emitted stream is its
//! position, consumed by phrase matching.  Positions are deliberately
//! ordinals of the *kept* stream: dropped tokens (too short, too long, or
//! stop words) occupy no position, so a phrase may match across an elided
//! stop word — the filters apply on the indexing side and the query side
//! alike, which keeps the two sides consistent.

use vstd::prelude::*;

verus! {

/// Per-field tokenizer configuration.
pub struct TokenizerConfig {
    /// Map ASCII upper case to lower case during normalization.
    pub lowercase: bool,
    /// Tokens shorter than this are dropped.
    pub min_token_len: usize,
    /// Tokens longer than this are dropped.
    pub max_token_len: usize,
    /// Whether documents keep per-occurrence positions for phrase queries.
    pub positions_enabled: bool,
    /// Normalized tokens excluded from indexing and queries.
    pub stop_words: Vec<Vec<u8>>,
}

/// The views of a sequence of byte vectors.
pub open spec fn views_of(v: Seq<Vec<u8>>) -> Seq<Seq<u8>> {
    v.map_values(|x: Vec<u8>| x@)
}

/// Bytes that may stand inside a token: ASCII letters and digits.
pub open spec fn is_word_byte(b: u8) -> bool {
    (48 <= b <= 57) || (65 <= b <= 90) || (97 <= b <= 122)
}

/// Normalization of one byte: lowercase ASCII letters when asked to.
pub open spec fn norm_byte(b: u8, lowercase: bool) -> u8 {
    if lowercase && 65 <= b <= 90 {
        (b + 32) as u8
    } else {
        b
    }
}

/// The maximal alphanumeric runs of `cur + s`, normalized, where `cur` is a
/// word in progress whose bytes are already normalized.
pub open spec fn raw_tokens_acc(s: Seq<u8>, cur: Seq<u8>, lowercase: bool) -> Seq<Seq<u8>>
    decreases s.len(),
{
    if s.len() == 0 {
        if cur.len() > 0 {
            seq![cur]
        } else {
            Seq::empty()
        }
    } else if is_word_byte(s.first()) {
        raw_tokens_acc(s.drop_first(), cur.push(norm_byte(s.first(), lowercase)), lowercase)
    } else if cur.len() > 0 {
        seq![cur] + raw_tokens_acc(s.drop_first(), Seq::empty(), lowercase)
    } else {
        raw_tokens_acc(s.drop_first(), Seq::empty(), lowercase)
    }
}

/// The maximal alphanumeric runs of `s`, normalized, in order.
pub open spec fn raw_tokens(s: Seq<u8>, lowercase: bool) -> Seq<Seq<u8>> {
    raw_tokens_acc(s, Seq::empty(), lowercase)
}

impl TokenizerConfig {
    /// The configured stop words, as byte sequences.
    pub open spec fn stop_set(&self) -> Seq<Seq<u8>> {
        views_of(self.stop_words@)
    }

    /// Whether a normalized token survives the length and stop-word filters.
    pub open spec fn keeps(&self, t: Seq<u8>) -> bool {
        self.min_token_len <= t.len() <= self.max_token_len && !self.stop_set().contains(t)
    }
}

/// The tokens of `ts` that the filters keep, in order.
pub open spec fn kept_tokens(ts: Seq<Seq<u8>>, cfg: TokenizerConfig) -> Seq<Seq<u8>>
    decreases ts.len(),
{
    if ts.len() == 0 {
        Seq::empty()
    } else if cfg.keeps(ts.last()) {
        kept_tokens(ts.drop_last(), cfg) + seq![ts.last()]
    } else {
        kept_tokens(ts.drop_last(), cfg)
    }
}

/// The token stream of `s` under `cfg`: maximal normalized alphanumeric
/// runs, with too-short, too-long and stop-word tokens dropped.
pub open spec fn spec_tokenize(s: Seq<u8>, cfg: TokenizerConfig) -> Seq<Seq<u8>> {
    kept_tokens(raw_tokens(s, cfg.lowercase), cfg)
}

/// Byte-wise equality of two byte vectors.
pub fn bytes_eq(a: &Vec<u8>, b: &Vec<u8>) -> (r: bool)
    ensures
        r == (a@ == b@),
{
    if a.len() != b.len() {
        assert(a@ != b@);
        return false;
    }
    let n = a.len();
    let mut i: usize = 0;
    while i < n
        invariant
            i <= n,
            n == a@.len() == b@.len(),
            forall|j: int| 0 <= j < i ==> a@[j] == b@[j],
        decreases n - i,
    {
        if a[i] != b[i] {
            assert(a@[i as int] != b@[i as int]);
            return false;
        }
        i += 1;
    }
    proof {
        assert(a@ =~= b@);
    }
    true
}

impl TokenizerConfig {
    /// Whether normalized token `t` is a configured stop word.
    pub fn is_stop_word(&self, t: &Vec<u8>) -> (r: bool)
        ensures
            r == self.stop_set().contains(t@),
    {
        let n = self.stop_words.len();
        let mut i: usize = 0;
        while i < n
            invariant
                i <= n,
                n == self.stop_words@.len(),
                forall|j: int| 0 <= j < i ==> self.stop_set()[j] != t@,
            decreases n - i,
        {
            if bytes_eq(&self.stop_words[i], t) {
                assert(self.stop_set()[i as int] == t@);
                return true;
            }
            i += 1;
        }
        proof {
            if self.stop_set().contains(t@) {
                let j = choose|j: int| 0 <= j < self.stop_set().len() && self.stop_set()[j] == t@;
                assert(self.stop_set()[j] != t@);
            }
        }
        false
    }

    /// Whether a normalized token survives the length and stop-word filters.
    pub fn keep(&self, t: &Vec<u8>) -> (r: bool)
        ensures
            r == self.keeps(t@),
    {
        self.min_token_len <= t.len() && t.len() <= self.max_token_len && !self.is_stop_word(t)
    }
}

fn is_word_byte_exec(b: u8) -> (r: bool)
    ensures
        r == is_word_byte(b),
{
    (48 <= b && b <= 57) || (65 <= b && b <= 90) || (97 <= b && b <= 122)
}

fn norm_byte_exec(b: u8, lowercase: bool) -> (r: u8)
    ensures
        r == norm_byte(b, lowercase),
{
    if lowercase && 65 <= b && b <= 90 {
        b + 32
    } else {
        b
    }
}

/// Tokenize `text` under `cfg`: the returned vectors hold exactly the token
/// stream `spec_tokenize(text@, cfg)`, in order; the index of a token in the
/// result is its position for phrase matching.
pub fn tokenize(text: &Vec<u8>, cfg: &TokenizerConfig) -> (r: Vec<Vec<u8>>)
    ensures
        views_of(r@) == spec_tokenize(text@, *cfg),
{
    let n = text.len();
    let mut raw: Vec<Vec<u8>> = Vec::new();
    let mut cur: Vec<u8> = Vec::new();
    let mut i: usize = 0;
    proof {
        assert(text@.subrange(0, n as int) =~= text@);
        assert(views_of(raw@) =~= Seq::<Seq<u8>>::empty());
        assert(cur@ =~= Seq::<u8>::empty());
        assert(views_of(raw@) + raw_tokens_acc(text@, Seq::empty(), cfg.lowercase)
            =~= raw_tokens_acc(text@, Seq::empty(), cfg.lowercase));
    }
    while i < n
        invariant
            i <= n,
            n == text@.len(),
            raw_tokens(text@, cfg.lowercase) == views_of(raw@)
                + raw_tokens_acc(text@.subrange(i as int, n as int), cur@, cfg.lowercase),
        decreases n - i,
    {
        let ghost lc = cfg.lowercase;
        let ghost rest = text@.subrange(i as int, n as int);
        let ghost oldcur = cur@;
        proof {
            assert(rest.len() > 0);
            assert(rest.first() == text@[i as int]);
            assert(rest.drop_first() =~= text@.subrange(i + 1, n as int));
        }
        let b = text[i];
        if is_word_byte_exec(b) {
            cur.push(norm_byte_exec(b, cfg.lowercase));
            proof {
                assert(raw_tokens_acc(rest, oldcur, lc)
                    == raw_tokens_acc(rest.drop_first(), oldcur.push(norm_byte(b, lc)), lc));
                assert(cur@ == oldcur.push(norm_byte(b, lc)));
            }
        } else if cur.len() > 0 {
            let ghost pre = raw@;
            let done = cur;
            cur = Vec::new();
            raw.push(done);
            proof {
                assert(raw_tokens_acc(rest, oldcur, lc)
                    == seq![oldcur] + raw_tokens_acc(rest.drop_first(), Seq::empty(), lc));
                assert(cur@ =~= Seq::<u8>::empty());
                assert(views_of(raw@) =~= views_of(pre) + seq![oldcur]);
                assert(views_of(raw@) + raw_tokens_acc(rest.drop_first(), Seq::empty(), lc)
                    =~= views_of(pre) + (seq![oldcur]
                        + raw_tokens_acc(rest.drop_first(), Seq::empty(), lc)));
            }
        } else {
            proof {
                assert(oldcur =~= Seq::<u8>::empty());
                assert(oldcur == Seq::<u8>::empty());
                assert(raw_tokens_acc(rest, oldcur, lc)
                    == raw_tokens_acc(rest.drop_first(), Seq::empty(), lc));
            }
        }
        i += 1;
    }
    proof {
        assert(text@.subrange(n as int, n as int) =~= Seq::<u8>::empty());
    }
    if cur.len() > 0 {
        let ghost pre = raw@;
        let ghost curv = cur@;
        raw.push(cur);
        proof {
            assert(views_of(raw@) =~= views_of(pre) + seq![curv]);
        }
    } else {
        proof {
            assert(views_of(raw@) + Seq::<Seq<u8>>::empty() =~= views_of(raw@));
        }
    }
    let ghost rawv = views_of(raw@);
    assert(rawv == raw_tokens(text@, cfg.lowercase));
    // Filtering: keep tokens inside the length bounds and off the stop list.
    let m = raw.len();
    let mut out: Vec<Vec<u8>> = Vec::new();
    let mut k: usize = 0;
    while k < m
        invariant
            k <= m,
            m == raw@.len(),
            views_of(raw@) == rawv,
            views_of(out@) == kept_tokens(rawv.subrange(0, k as int), *cfg),
        decreases m - k,
    {
        let ghost pre = out@;
        let ghost prefix = rawv.subrange(0, k as int);
        let ghost prefix1 = rawv.subrange(0, k + 1);
        proof {
            assert(prefix1.drop_last() =~= prefix);
            assert(prefix1.last() == rawv[k as int]);
            assert(raw@[k as int]@ == rawv[k as int]);
        }
        let keep_it = cfg.keep(&raw[k]);
        if keep_it {
            let t = raw[k].clone();
            proof {
                assert(t@ == raw@[k as int]@);
            }
            out.push(t);
            proof {
                assert(views_of(out@) =~= views_of(pre) + seq![rawv[k as int]]);
            }
        }
        k += 1;
    }
    proof {
        assert(rawv.subrange(0, m as int) =~= rawv);
    }
    out
}

/// The token stream is never longer than the text.
pub proof fn lemma_raw_tokens_acc_len(s: Seq<u8>, cur: Seq<u8>, lowercase: bool)
    ensures
        raw_tokens_acc(s, cur, lowercase).len() <= s.len() + (if cur.len() > 0 {
            1int
        } else {
            0int
        }),
    decreases s.len(),
{
    if s.len() == 0 {
    } else if is_word_byte(s.first()) {
        lemma_raw_tokens_acc_len(s.drop_first(), cur.push(norm_byte(s.first(), lowercase)),
            lowercase);
    } else if cur.len() > 0 {
        lemma_raw_tokens_acc_len(s.drop_first(), Seq::empty(), lowercase);
    } else {
        lemma_raw_tokens_acc_len(s.drop_first(), Seq::empty(), lowercase);
    }
}

/// Filtering never lengthens the token stream.
pub proof fn lemma_kept_tokens_len(ts: Seq<Seq<u8>>, cfg: TokenizerConfig)
    ensures
        kept_tokens(ts, cfg).len() <= ts.len(),
    decreases ts.len(),
{
    if ts.len() > 0 {
        lemma_kept_tokens_len(ts.drop_last(), cfg);
    }
}

/// The kept token stream of a text is never longer than the text.
pub proof fn lemma_tokenize_len(s: Seq<u8>, cfg: TokenizerConfig)
    ensures
        spec_tokenize(s, cfg).len() <= s.len(),
{
    lemma_raw_tokens_acc_len(s, Seq::empty(), cfg.lowercase);
    lemma_kept_tokens_len(raw_tokens(s, cfg.lowercase), cfg);
}

} // verus!
