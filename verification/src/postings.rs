//! Posting lists: for one token, the ids of the points that contain it,
//! kept strictly ascending with no duplicates.

use vstd::prelude::*;
use vstd::seq_lib::*;
use vstd::set_lib::*;

verus! {

/// All entries of `s` grow strictly from left to right.
pub open spec fn strictly_sorted(s: Seq<u32>) -> bool {
    forall|i: int, j: int| 0 <= i < j < s.len() ==> s[i] < s[j]
}

/// A strictly sorted sequence never repeats an entry.
pub proof fn lemma_strictly_sorted_no_duplicates(s: Seq<u32>)
    requires
        strictly_sorted(s),
    ensures
        s.no_duplicates(),
{
}

/// Two strictly sorted sequences with the same members are the same sequence.
pub proof fn lemma_sorted_unique(a: Seq<u32>, b: Seq<u32>)
    requires
        strictly_sorted(a),
        strictly_sorted(b),
        forall|x: u32| a.contains(x) <==> b.contains(x),
    ensures
        a == b,
    decreases a.len(),
{
    if a.len() == 0 {
        if b.len() > 0 {
            assert(b.contains(b[0]));
        }
        assert(a =~= b);
    } else if b.len() == 0 {
        assert(a.contains(a[0]));
    } else {
        // Both first elements are the minimum of the common member set.
        assert(b.contains(a[0]));
        assert(a.contains(b[0]));
        let ia = choose|i: int| 0 <= i < a.len() && a[i] == b[0];
        let ib = choose|i: int| 0 <= i < b.len() && b[i] == a[0];
        assert(a[0] <= a[ia] && b[0] <= b[ib]);
        assert(a[0] == b[0]);
        let at = a.drop_first();
        let bt = b.drop_first();
        assert forall|x: u32| at.contains(x) <==> bt.contains(x) by {
            if at.contains(x) {
                let i = choose|i: int| 0 <= i < at.len() && at[i] == x;
                assert(a[i + 1] == x);
                assert(a.contains(x));
                assert(x > a[0]);
                let j = choose|j: int| 0 <= j < b.len() && b[j] == x;
                assert(j != 0);
                assert(bt[j - 1] == x);
            }
            if bt.contains(x) {
                let i = choose|i: int| 0 <= i < bt.len() && bt[i] == x;
                assert(b[i + 1] == x);
                assert(b.contains(x));
                assert(x > b[0]);
                let j = choose|j: int| 0 <= j < a.len() && a[j] == x;
                assert(j != 0);
                assert(at[j - 1] == x);
            }
        }
        lemma_sorted_unique(at, bt);
        assert(at == bt);
        assert(a.len() == b.len());
        assert forall|i: int| 0 <= i < a.len() implies a[i] == b[i] by {
            if i > 0 {
                assert(at[i - 1] == a[i]);
                assert(bt[i - 1] == b[i]);
            }
        }
        assert(a =~= b);
    }
}

/// If every member of `a` is a member of `b` and both are strictly sorted,
/// then `a` is no longer than `b`.
pub proof fn lemma_sorted_subset_len(a: Seq<u32>, b: Seq<u32>)
    requires
        strictly_sorted(a),
        strictly_sorted(b),
        forall|x: u32| a.contains(x) ==> b.contains(x),
    ensures
        a.len() <= b.len(),
{
    lemma_strictly_sorted_no_duplicates(a);
    lemma_strictly_sorted_no_duplicates(b);
    a.unique_seq_to_set();
    b.unique_seq_to_set();
    assert forall|x: u32| a.to_set().contains(x) implies b.to_set().contains(x) by {
        assert(a.contains(x));
    }
    lemma_len_subset(a.to_set(), b.to_set());
}

/// Copy a u32 vector.
pub fn clone_u32s(v: &Vec<u32>) -> (r: Vec<u32>)
    ensures
        r@ == v@,
{
    let mut out: Vec<u32> = Vec::new();
    let n = v.len();
    let mut i: usize = 0;
    while i < n
        invariant
            i <= n,
            n == v@.len(),
            out@ == v@.subrange(0, i as int),
        decreases n - i,
    {
        out.push(v[i]);
        proof {
            assert(out@ =~= v@.subrange(0, i + 1));
        }
        i += 1;
    }
    proof {
        assert(v@.subrange(0, n as int) =~= v@);
    }
    out
}

/// Whether a u32 vector holds `x`, by linear scan.
pub fn contains_u32(v: &Vec<u32>, x: u32) -> (r: bool)
    ensures
        r == v@.contains(x),
{
    let n = v.len();
    let mut i: usize = 0;
    while i < n
        invariant
            i <= n,
            n == v@.len(),
            forall|j: int| 0 <= j < i ==> v@[j] != x,
        decreases n - i,
    {
        if v[i] == x {
            assert(v@[i as int] == x);
            return true;
        }
        i += 1;
    }
    proof {
        if v@.contains(x) {
            let j = choose|j: int| 0 <= j < v@.len() && v@[j] == x;
            assert(v@[j] != x);
        }
    }
    false
}

/// A posting list: the point ids holding one token, strictly ascending.
pub struct PostingList {
    pub ids: Vec<u32>,
}

impl View for PostingList {
    type V = Seq<u32>;

    open spec fn view(&self) -> Seq<u32> {
        self.ids@
    }
}

/// Index of the first entry of `ids` that is `>= p`, or `ids.len()` if all
/// entries are smaller; found by binary search.
fn lower_bound(ids: &Vec<u32>, p: u32) -> (r: usize)
    requires
        strictly_sorted(ids@),
    ensures
        r <= ids@.len(),
        forall|i: int| 0 <= i < r ==> ids@[i] < p,
        forall|i: int| r <= i < ids@.len() ==> ids@[i] >= p,
{
    let mut lo: usize = 0;
    let mut hi: usize = ids.len();
    while lo < hi
        invariant
            lo <= hi <= ids@.len(),
            strictly_sorted(ids@),
            forall|i: int| 0 <= i < lo ==> ids@[i] < p,
            forall|i: int| hi <= i < ids@.len() ==> ids@[i] >= p,
        decreases hi - lo,
    {
        let mid = lo + (hi - lo) / 2;
        if ids[mid] < p {
            assert forall|i: int| 0 <= i < mid + 1 implies ids@[i] < p by {
                if i < mid {
                    assert(ids@[i] < ids@[mid as int]);
                }
            }
            lo = mid + 1;
        } else {
            hi = mid;
        }
    }
    lo
}

impl PostingList {
    /// The list is well formed: strictly ascending, hence duplicate-free.
    pub open spec fn wf(&self) -> bool {
        strictly_sorted(self@)
    }

    pub fn new() -> (r: PostingList)
        ensures
            r.wf(),
            r@ =~= Seq::<u32>::empty(),
    {
        PostingList { ids: Vec::new() }
    }

    pub fn len(&self) -> (r: usize)
        ensures
            r == self@.len(),
    {
        self.ids.len()
    }

    pub fn get(&self, i: usize) -> (r: u32)
        requires
            i < self@.len(),
        ensures
            r == self@[i as int],
    {
        self.ids[i]
    }

    /// Whether point `p` is in the list, by binary search.
    pub fn contains(&self, p: u32) -> (r: bool)
        requires
            self.wf(),
        ensures
            r == self@.contains(p),
    {
        let idx = lower_bound(&self.ids, p);
        if idx < self.ids.len() && self.ids[idx] == p {
            assert(self@[idx as int] == p);
            true
        } else {
            assert(!self@.contains(p)) by {
                if self@.contains(p) {
                    let i = choose|i: int| 0 <= i < self@.len() && self@[i] == p;
                    if i < idx {
                    } else {
                        if idx < self@.len() && i > idx {
                            assert(self@[idx as int] < self@[i]);
                        }
                    }
                }
            }
            false
        }
    }

    /// Insert point `p`, keeping the list strictly sorted; a no-op when `p`
    /// is already present.  Returns the index at which `p` now stands.
    pub fn insert(&mut self, p: u32) -> (k: usize)
        requires
            old(self).wf(),
        ensures
            final(self).wf(),
            k < final(self)@.len(),
            final(self)@[k as int] == p,
            forall|x: u32| final(self)@.contains(x) <==> (old(self)@.contains(x) || x == p),
            old(self)@.contains(p) ==> final(self)@ == old(self)@ && final(self)@.len() == old(self)@.len(),
            !old(self)@.contains(p) ==> final(self)@ == old(self)@.insert(k as int, p)
                && final(self)@.len() == old(self)@.len() + 1,
    {
        let idx = lower_bound(&self.ids, p);
        if idx < self.ids.len() && self.ids[idx] == p {
            assert(self@[idx as int] == p);
            assert(self@.contains(p));
            idx
        } else {
            proof {
                if self@.contains(p) {
                    let i = choose|i: int| 0 <= i < self@.len() && self@[i] == p;
                    if idx < self@.len() && i > idx {
                        assert(self@[idx as int] < self@[i]);
                    }
                    assert(false);
                }
            }
            let ghost pre = self@;
            self.ids.insert(idx, p);
            assert(self@ =~= pre.insert(idx as int, p));
            assert(final(self).wf()) by {
                assert forall|i: int, j: int| 0 <= i < j < self@.len() implies self@[i] < self@[j] by {
                    if j < idx {
                        assert(self@[i] == pre[i] && self@[j] == pre[j]);
                    } else if i > idx {
                        assert(self@[i] == pre[i - 1] && self@[j] == pre[j - 1]);
                    } else if i == idx {
                        assert(self@[i] == p && self@[j] == pre[j - 1] && pre[j - 1] >= p);
                        assert(pre[j - 1] != p);
                    } else if j == idx {
                        assert(self@[i] == pre[i] && pre[i] < p);
                    } else {
                        // i < idx < j
                        assert(self@[i] == pre[i] && pre[i] < p);
                        assert(self@[j] == pre[j - 1] && pre[j - 1] >= p && pre[j - 1] != p);
                    }
                }
            }
            assert forall|x: u32| final(self)@.contains(x) <==> (pre.contains(x) || x == p) by {
                if self@.contains(x) {
                    let i = choose|i: int| 0 <= i < self@.len() && self@[i] == x;
                    if i < idx {
                        assert(pre[i] == x);
                        assert(pre.contains(x));
                    } else if i > idx {
                        assert(pre[i - 1] == x);
                        assert(pre.contains(x));
                    }
                }
                if pre.contains(x) {
                    let i = choose|i: int| 0 <= i < pre.len() && pre[i] == x;
                    if i < idx {
                        assert(self@[i] == x);
                    } else {
                        assert(self@[i + 1] == x);
                    }
                    assert(self@.contains(x));
                }
                if x == p {
                    assert(self@[idx as int] == p);
                    assert(self@.contains(x));
                }
            }
            idx
        }
    }

    /// Remove point `p` if present; a no-op otherwise.
    pub fn remove(&mut self, p: u32)
        requires
            old(self).wf(),
        ensures
            final(self).wf(),
            forall|x: u32| final(self)@.contains(x) <==> (old(self)@.contains(x) && x != p),
            old(self)@.contains(p) ==> final(self)@ == old(self)@.remove_value(p)
                && final(self)@.len() == old(self)@.len() - 1,
            !old(self)@.contains(p) ==> final(self)@ == old(self)@,
    {
        let idx = lower_bound(&self.ids, p);
        if idx < self.ids.len() && self.ids[idx] == p {
            let ghost pre = self@;
            assert(pre[idx as int] == p);
            assert(pre.contains(p));
            proof {
                lemma_strictly_sorted_no_duplicates(pre);
                assert forall|i: int| 0 <= i < idx implies pre[i] != p by {
                    assert(pre[i] < pre[idx as int]);
                }
                assert(pre.index_of_first(p) == Some(idx as int)) by {
                    pre.index_of_first_ensures(p);
                    let f = pre.index_of_first(p)->0;
                    if f < idx {
                        assert(pre[f] != p);
                    } else if f > idx {
                        assert(pre[f] > pre[idx as int]);
                    }
                }
            }
            self.ids.remove(idx);
            assert(self@ =~= pre.remove(idx as int));
            proof {
                assert(pre.remove_value(p) == pre.remove(idx as int));
            }
            assert forall|x: u32| final(self)@.contains(x) <==> (pre.contains(x) && x != p) by {
                if self@.contains(x) {
                    let i = choose|i: int| 0 <= i < self@.len() && self@[i] == x;
                    if i < idx {
                        assert(pre[i] == x && pre[i] < pre[idx as int]);
                        assert(pre.contains(x));
                    } else {
                        assert(pre[i + 1] == x && pre[i + 1] > pre[idx as int]);
                        assert(pre.contains(x));
                    }
                }
                if pre.contains(x) && x != p {
                    let i = choose|i: int| 0 <= i < pre.len() && pre[i] == x;
                    if i < idx {
                        assert(self@[i] == x);
                    } else {
                        assert(i != idx);
                        assert(self@[i - 1] == x);
                    }
                    assert(self@.contains(x));
                }
            }
            assert(final(self).wf()) by {
                assert forall|i: int, j: int| 0 <= i < j < self@.len() implies self@[i] < self@[j] by {
                    if j < idx {
                    } else if i >= idx {
                        assert(self@[i] == pre[i + 1] && self@[j] == pre[j + 1]);
                    } else {
                        assert(self@[i] == pre[i] && self@[j] == pre[j + 1]);
                    }
                }
            }
        } else {
            assert(!self@.contains(p)) by {
                if self@.contains(p) {
                    let i = choose|i: int| 0 <= i < self@.len() && self@[i] == p;
                    if idx < self@.len() && i > idx {
                        assert(self@[idx as int] < self@[i]);
                    }
                }
            }
        }
    }

    /// The points present in both `self` and `other`; bounded by the shorter
    /// list: each candidate of `self` is checked in `other` by binary search.
    pub fn intersect(&self, other: &PostingList) -> (r: PostingList)
        requires
            self.wf(),
            other.wf(),
        ensures
            r.wf(),
            forall|x: u32| r@.contains(x) <==> (self@.contains(x) && other@.contains(x)),
            r@.len() <= self@.len(),
            r@.len() <= other@.len(),
    {
        let mut out: Vec<u32> = Vec::new();
        let n = self.ids.len();
        let mut i: usize = 0;
        while i < n
            invariant
                i <= n,
                n == self@.len(),
                self.wf(),
                other.wf(),
                strictly_sorted(out@),
                forall|x: u32| out@.contains(x) <==> (self@.subrange(0, i as int).contains(x)
                    && other@.contains(x)),
            decreases n - i,
        {
            let p = self.ids[i];
            let ghost pre = out@;
            let other_has = other.contains(p);
            if other_has {
                proof {
                    assert forall|k: int| 0 <= k < pre.len() implies pre[k] < p by {
                        assert(pre.contains(pre[k]));
                        let m = choose|m: int| 0 <= m < i && self@[m] == pre[k];
                        assert(self@[m] < self@[i as int]);
                    }
                }
                out.push(p);
                assert(strictly_sorted(out@));
            }
            proof {
                let s0 = self@.subrange(0, i as int);
                let s1 = self@.subrange(0, i + 1);
                assert(s1 =~= s0.push(self@[i as int]));
                if other_has {
                    assert(out@ =~= pre.push(p));
                    assert forall|x: u32| out@.contains(x) implies (s1.contains(x)
                        && other@.contains(x)) by {
                        let k = choose|k: int| 0 <= k < out@.len() && out@[k] == x;
                        if k < pre.len() {
                            assert(pre.contains(x));
                            assert(s0.contains(x));
                            let m = choose|m: int| 0 <= m < s0.len() && s0[m] == x;
                            assert(s1[m] == x);
                        } else {
                            assert(x == p);
                            assert(s1[i as int] == x);
                        }
                        assert(s1.contains(x));
                    }
                    assert forall|x: u32| (s1.contains(x) && other@.contains(x))
                        implies out@.contains(x) by {
                        let k = choose|k: int| 0 <= k < s1.len() && s1[k] == x;
                        if k < i {
                            assert(s0[k] == x);
                            assert(s0.contains(x));
                            assert(pre.contains(x));
                            let m = choose|m: int| 0 <= m < pre.len() && pre[m] == x;
                            assert(out@[m] == x);
                        } else {
                            assert(x == p);
                            assert(out@[pre.len() as int] == p);
                        }
                        assert(out@.contains(x));
                    }
                } else {
                    assert(out@ == pre);
                    assert forall|x: u32| out@.contains(x) implies (s1.contains(x)
                        && other@.contains(x)) by {
                        assert(s0.contains(x));
                        let m = choose|m: int| 0 <= m < s0.len() && s0[m] == x;
                        assert(s1[m] == x);
                        assert(s1.contains(x));
                    }
                    assert forall|x: u32| (s1.contains(x) && other@.contains(x))
                        implies out@.contains(x) by {
                        let k = choose|k: int| 0 <= k < s1.len() && s1[k] == x;
                        if k < i {
                            assert(s0[k] == x);
                            assert(s0.contains(x));
                        } else {
                            assert(x == p);
                            assert(false);
                        }
                    }
                }
            }
            i += 1;
        }
        proof {
            assert(self@.subrange(0, n as int) =~= self@);
            assert forall|x: u32| out@.contains(x) implies self@.contains(x) by {}
            assert forall|x: u32| out@.contains(x) implies other@.contains(x) by {}
            lemma_sorted_subset_len(out@, self@);
            lemma_sorted_subset_len(out@, other@);
        }
        PostingList { ids: out }
    }
}

} // verus!
