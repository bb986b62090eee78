//! Set algebra on `SparSet`: the four derived sets, the comparisons, and the
//! in-place assignment forms.
use vstd::prelude::*;
use vstd::seq_lib::{lemma_multiset_commutative, seq_to_set_distributes_over_add};
use vstd::set_lib::*;

use crate::set::{inserted, swap_removed, SparSet, MAX_K};

verus! {

/// The keys of `src` that are (`keep`) or are not (`!keep`) members of `other`,
/// in the order of `src`.
fn filter_members(src: &[u16], other: &SparSet, keep: bool) -> (r: Vec<u16>)
    requires
        other.wf(),
        src@.no_duplicates(),
    ensures
        r@.no_duplicates(),
        keep ==> r@.to_set() == src@.to_set().intersect(other.keys()),
        !keep ==> r@.to_set() == src@.to_set().difference(other.keys()),
        r@ == src@.filter(|k: u16| other@.contains(k) == keep),
{
    let mut r: Vec<u16> = Vec::new();
    let mut i: usize = 0;
    while i < src.len()
        invariant
            other.wf(),
            src@.no_duplicates(),
            i <= src@.len(),
            r@.no_duplicates(),
            forall|x: u16| #[trigger]
                r@.contains(x) <==> (src@.subrange(0, i as int).contains(x) && (other@.contains(x)
                    == keep)),
            r@ == src@.subrange(0, i as int).filter(|k: u16| other@.contains(k) == keep),
        decreases src@.len() - i,
    {
        let k = src[i];
        proof {
            let pre = src@.subrange(0, i as int);
            assert(src@.subrange(0, i + 1) =~= pre.push(k));
            pre.lemma_filter_push(k, |k: u16| other@.contains(k) == keep);
        }
        let ghost before = r@;
        let ghost pre = src@.subrange(0, i as int);
        proof {
            assert(!pre.contains(k)) by {
                if pre.contains(k) {
                    let j = choose|j: int| 0 <= j < pre.len() && pre[j] == k;
                    assert(src@[j] == src@[i as int]);
                }
            }
        }
        if other.contains(k) == keep {
            r.push(k);
            proof {
                assert forall|a: int, b: int| 0 <= a < r@.len() && 0 <= b < r@.len() && a != b
                    implies r@[a] != r@[b] by {
                    if a == r@.len() - 1 {
                        assert(before.contains(r@[b]));
                    }
                    if b == r@.len() - 1 {
                        assert(before.contains(r@[a]));
                    }
                }
            }
        }
        proof {
            let post = src@.subrange(0, i + 1);
            assert(post =~= pre.push(k));
            assert(post[i as int] == k);
            assert forall|x: u16| #[trigger]
                r@.contains(x) <==> (post.contains(x) && (other@.contains(x) == keep)) by {
                if x == k {
                    assert(!before.contains(k));
                    if other@.contains(k) == keep {
                        assert(r@[r@.len() - 1] == k);
                    }
                } else {
                    if r@.contains(x) {
                        let j = choose|j: int| 0 <= j < r@.len() && r@[j] == x;
                        assert(before[j] == x);
                        assert(before.contains(x));
                        let m = choose|m: int| 0 <= m < pre.len() && pre[m] == x;
                        assert(post[m] == x);
                    }
                    if post.contains(x) && (other@.contains(x) == keep) {
                        let m = choose|m: int| 0 <= m < post.len() && post[m] == x;
                        assert(pre[m] == x);
                        assert(pre.contains(x));
                        assert(before.contains(x));
                        let j = choose|j: int| 0 <= j < before.len() && before[j] == x;
                        assert(r@[j] == x);
                    }
                }
            }
        }
        i = i + 1;
    }
    proof {
        assert(src@.subrange(0, src@.len() as int) =~= src@);
        if keep {
            assert(r@.to_set() =~= src@.to_set().intersect(other.keys()));
        } else {
            assert(r@.to_set() =~= src@.to_set().difference(other.keys()));
        }
    }
    r
}

/// Appends `b` to `a`.
fn concat(a: &[u16], b: Vec<u16>) -> (r: Vec<u16>)
    ensures
        r@ == a@ + b@,
{
    let mut r: Vec<u16> = Vec::new();
    let mut i: usize = 0;
    while i < a.len()
        invariant
            i <= a@.len(),
            r@ == a@.subrange(0, i as int),
        decreases a@.len() - i,
    {
        r.push(a[i]);
        i = i + 1;
        proof {
            assert(r@ =~= a@.subrange(0, i as int));
        }
    }
    let mut j: usize = 0;
    while j < b.len()
        invariant
            j <= b@.len(),
            a@.subrange(0, a@.len() as int) == a@,
            r@ == a@ + b@.subrange(0, j as int),
        decreases b@.len() - j,
    {
        r.push(b[j]);
        j = j + 1;
        proof {
            assert(r@ =~= a@ + b@.subrange(0, j as int));
        }
    }
    proof {
        assert(b@.subrange(0, b@.len() as int) =~= b@);
    }
    r
}

/// Two duplicate-free sequences with no common element concatenate to a
/// duplicate-free sequence.
proof fn lemma_concat_no_dup(a: Seq<u16>, b: Seq<u16>)
    requires
        a.no_duplicates(),
        b.no_duplicates(),
        a.to_set().disjoint(b.to_set()),
    ensures
        (a + b).no_duplicates(),
        (a + b).to_set() == a.to_set() + b.to_set(),
{
    let c = a + b;
    assert forall|i: int, j: int| 0 <= i < c.len() && 0 <= j < c.len() && i != j implies c[i]
        != c[j] by {
        if i < a.len() && j >= a.len() {
            assert(a.to_set().contains(c[i]));
            assert(b[j - a.len()] == c[j]);
            assert(b.to_set().contains(c[j]));
        }
        if j < a.len() && i >= a.len() {
            assert(a.to_set().contains(c[j]));
            assert(b[i - a.len()] == c[i]);
            assert(b.to_set().contains(c[i]));
        }
    }
    seq_to_set_distributes_over_add(a, b);
}

/// The keys of `a` that `b` does not contain, in the order of `a`.
pub open spec fn minus(a: Seq<u16>, b: Seq<u16>) -> Seq<u16> {
    a.filter(|k: u16| b.contains(k) == false)
}

/// The symmetric difference, as the two differences one after the other,
/// holds each key exactly as often as the two differences together.
pub proof fn law_symmetric_difference_multiset(a: &SparSet, b: &SparSet)
    ensures
        (minus(a@, b@) + minus(b@, a@)).to_multiset() == minus(a@, b@).to_multiset().add(
            minus(b@, a@).to_multiset(),
        ),
{
    lemma_multiset_commutative(minus(a@, b@), minus(b@, a@));
}

impl SparSet {
    /// The members of `self` that are not members of `other`, in dense order.
    pub fn difference(&self, other: &SparSet) -> (r: Vec<u16>)
        requires
            self.wf(),
            other.wf(),
        ensures
            r@.no_duplicates(),
            r@.to_set() == self.keys() - other.keys(),
            r@ == minus(self@, other@),
    {
        proof {
            self.lemma_keys();
        }
        filter_members(self.as_slice(), other, false)
    }

    /// The common members, found by walking the smaller set.
    pub fn intersection(&self, other: &SparSet) -> (r: Vec<u16>)
        requires
            self.wf(),
            other.wf(),
        ensures
            r@.no_duplicates(),
            r@.to_set() == self.keys().intersect(other.keys()),
    {
        proof {
            self.lemma_keys();
            other.lemma_keys();
        }
        if self.len() <= other.len() {
            filter_members(self.as_slice(), other, true)
        } else {
            let r = filter_members(other.as_slice(), self, true);
            proof {
                assert(r@.to_set() =~= self.keys().intersect(other.keys()));
            }
            r
        }
    }

    /// The members of either set: the larger set, then what the smaller adds.
    pub fn union(&self, other: &SparSet) -> (r: Vec<u16>)
        requires
            self.wf(),
            other.wf(),
        ensures
            r@.no_duplicates(),
            r@.to_set() == self.keys() + other.keys(),
    {
        proof {
            self.lemma_keys();
            other.lemma_keys();
        }
        let (smaller, larger) = if self.len() <= other.len() {
            (self, other)
        } else {
            (other, self)
        };
        proof {
            smaller.lemma_keys();
            larger.lemma_keys();
        }
        let extra = filter_members(smaller.as_slice(), larger, false);
        let r = concat(larger.as_slice(), extra);
        proof {
            lemma_concat_no_dup(larger@, extra@);
            assert(r@.to_set() =~= self.keys() + other.keys());
        }
        r
    }

    /// The members of exactly one of the two sets: `self - other`, then
    /// `other - self`.
    pub fn symmetric_difference(&self, other: &SparSet) -> (r: Vec<u16>)
        requires
            self.wf(),
            other.wf(),
        ensures
            r@.no_duplicates(),
            r@.to_set() == (self.keys() - other.keys()) + (other.keys() - self.keys()),
            r@ == minus(self@, other@) + minus(other@, self@),
    {
        let a = self.difference(other);
        let b = other.difference(self);
        let r = concat(a.as_slice(), b);
        proof {
            lemma_concat_no_dup(a@, b@);
        }
        r
    }

    /// Whether no key is a member of both sets.
    pub fn is_disjoint(&self, other: &SparSet) -> (r: bool)
        requires
            self.wf(),
            other.wf(),
        ensures
            r == self.keys().disjoint(other.keys()),
    {
        let s = self.as_slice();
        let mut i: usize = 0;
        while i < s.len()
            invariant
                self.wf(),
                other.wf(),
                s@ == self@,
                i <= s@.len(),
                forall|j: int| 0 <= j < i ==> !other@.contains(#[trigger] s@[j]),
            decreases s@.len() - i,
        {
            if other.contains(s[i]) {
                proof {
                    assert(self@.contains(s@[i as int]));
                    assert(self.keys().contains(s@[i as int]));
                    assert(other.keys().contains(s@[i as int]));
                }
                return false;
            }
            i = i + 1;
        }
        proof {
            assert forall|x: u16| self.keys().contains(x) implies !other.keys().contains(x) by {
                let j = choose|j: int| 0 <= j < self@.len() && self@[j] == x;
            }
        }
        true
    }

    /// Whether every member of `self` is a member of `other`.
    pub fn is_subset(&self, other: &SparSet) -> (r: bool)
        requires
            self.wf(),
            other.wf(),
        ensures
            r == self.keys().subset_of(other.keys()),
    {
        proof {
            self.lemma_keys();
            other.lemma_keys();
        }
        if self.len() > other.len() {
            proof {
                if self.keys().subset_of(other.keys()) {
                    lemma_len_subset(self.keys(), other.keys());
                }
            }
            return false;
        }
        let s = self.as_slice();
        let mut i: usize = 0;
        while i < s.len()
            invariant
                self.wf(),
                other.wf(),
                s@ == self@,
                i <= s@.len(),
                forall|j: int| 0 <= j < i ==> other@.contains(#[trigger] s@[j]),
            decreases s@.len() - i,
        {
            if !other.contains(s[i]) {
                proof {
                    assert(self@.contains(s@[i as int]));
                    assert(self.keys().contains(s@[i as int]));
                    assert(!other.keys().contains(s@[i as int]));
                }
                return false;
            }
            i = i + 1;
        }
        proof {
            assert forall|x: u16| self.keys().contains(x) implies other.keys().contains(x) by {
                let j = choose|j: int| 0 <= j < self@.len() && self@[j] == x;
            }
        }
        true
    }

    /// Whether every member of `other` is a member of `self`.
    pub fn is_superset(&self, other: &SparSet) -> (r: bool)
        requires
            self.wf(),
            other.wf(),
        ensures
            r == other.keys().subset_of(self.keys()),
    {
        other.is_subset(self)
    }

    /// Set equality: same length and every member of `self` in `other`.
    pub fn eq(&self, other: &SparSet) -> (r: bool)
        requires
            self.wf(),
            other.wf(),
        ensures
            r == (self.keys() == other.keys()),
    {
        proof {
            self.lemma_keys();
            other.lemma_keys();
        }
        if self.len() != other.len() {
            return false;
        }
        let r = self.is_subset(other);
        proof {
            if r {
                lemma_subset_equality(self.keys(), other.keys());
            }
        }
        r
    }

    /// Adds every member of `rhs`.
    pub fn bitor_assign(&mut self, rhs: &SparSet)
        requires
            old(self).wf(),
            rhs.wf(),
            rhs.slots() <= old(self).slots(),
            (old(self).keys() + rhs.keys()).len() <= MAX_K,
        ensures
            final(self).wf(),
            final(self).slots() == old(self).slots(),
            final(self).keys() == old(self).keys() + rhs.keys(),
    {
        let s = rhs.as_slice();
        proof {
            rhs.lemma_keys();
            old(self).lemma_keys();
            lemma_set_union_finite_iff(old(self).keys(), rhs.keys());
        }
        let mut i: usize = 0;
        while i < s.len()
            invariant
                self.wf(),
                rhs.wf(),
                s@ == rhs@,
                i <= s@.len(),
                self.slots() == old(self).slots(),
                rhs.slots() <= self.slots(),
                (old(self).keys() + rhs.keys()).finite(),
                (old(self).keys() + rhs.keys()).len() <= MAX_K,
                self.keys() == old(self).keys() + s@.subrange(0, i as int).to_set(),
            decreases s@.len() - i,
        {
            let k = s[i];
            let ghost pre = s@.subrange(0, i as int);
            proof {
                rhs.lemma_keys();
                self.lemma_keys();
                assert(rhs@.contains(k));
                assert(self.keys().insert(k).subset_of(old(self).keys() + rhs.keys())) by {
                    assert forall|x: u16| pre.contains(x) implies rhs.keys().contains(x) by {
                        let j = choose|j: int| 0 <= j < pre.len() && pre[j] == x;
                        assert(rhs@[j] == x);
                    }
                }
                lemma_len_subset(self.keys().insert(k), old(self).keys() + rhs.keys());
            }
            if !self.contains(k) {
                self.insert_one(k);
            }
            proof {
                let post = s@.subrange(0, i + 1);
                assert(post =~= pre.push(k));
                pre.lemma_push_to_set_commute(k);
                assert(self.keys() =~= old(self).keys() + post.to_set());
            }
            i = i + 1;
        }
        proof {
            assert(s@.subrange(0, s@.len() as int) =~= rhs@);
        }
    }

    /// Keeps only the members that are also members of `rhs`.
    pub fn bitand_assign(&mut self, rhs: &SparSet)
        requires
            old(self).wf(),
            rhs.wf(),
        ensures
            final(self).wf(),
            final(self).slots() == old(self).slots(),
            final(self).keys() == old(self).keys().intersect(rhs.keys()),
    {
        let f = |k: u16| -> (b: bool)
            requires
                rhs.wf(),
            ensures
                b == rhs@.contains(k),
            { rhs.contains(k) };
        self.retain(f);
        proof {
            assert(self.keys() =~= old(self).keys().intersect(rhs.keys()));
        }
    }

    /// Toggles every member of `rhs`: removes it where present, adds it where
    /// absent.
    pub fn bitxor_assign(&mut self, rhs: &SparSet)
        requires
            old(self).wf(),
            rhs.wf(),
            rhs.slots() <= old(self).slots(),
            (old(self).keys() + rhs.keys()).len() <= MAX_K,
        ensures
            final(self).wf(),
            final(self).slots() == old(self).slots(),
            final(self).keys() == (old(self).keys() - rhs.keys()) + (rhs.keys() - old(self).keys()),
    {
        let s = rhs.as_slice();
        proof {
            rhs.lemma_keys();
            old(self).lemma_keys();
            lemma_set_union_finite_iff(old(self).keys(), rhs.keys());
        }
        let mut i: usize = 0;
        while i < s.len()
            invariant
                self.wf(),
                rhs.wf(),
                s@ == rhs@,
                s@.no_duplicates(),
                i <= s@.len(),
                self.slots() == old(self).slots(),
                rhs.slots() <= self.slots(),
                (old(self).keys() + rhs.keys()).finite(),
                (old(self).keys() + rhs.keys()).len() <= MAX_K,
                self.keys() == (old(self).keys() - s@.subrange(0, i as int).to_set()) + (s@.subrange(
                    0,
                    i as int,
                ).to_set() - old(self).keys()),
            decreases s@.len() - i,
        {
            let k = s[i];
            let ghost pre = s@.subrange(0, i as int);
            proof {
                rhs.lemma_keys();
                self.lemma_keys();
                assert(rhs@.contains(k));
                assert(!pre.contains(k)) by {
                    if pre.contains(k) {
                        let j = choose|j: int| 0 <= j < pre.len() && pre[j] == k;
                        assert(s@[j] == s@[i as int]);
                    }
                }
                assert(self.keys().insert(k).subset_of(old(self).keys() + rhs.keys())) by {
                    assert forall|x: u16| pre.contains(x) implies rhs.keys().contains(x) by {
                        let j = choose|j: int| 0 <= j < pre.len() && pre[j] == x;
                        assert(rhs@[j] == x);
                    }
                }
                lemma_len_subset(self.keys().insert(k), old(self).keys() + rhs.keys());
            }
            if !self.contains(k) {
                self.insert_one(k);
            } else {
                self.delete_one(k);
            }
            proof {
                let post = s@.subrange(0, i + 1);
                assert(post =~= pre.push(k));
                pre.lemma_push_to_set_commute(k);
                assert(self.keys() =~= (old(self).keys() - post.to_set()) + (post.to_set() - old(self).keys()));
            }
            i = i + 1;
        }
        proof {
            assert(s@.subrange(0, s@.len() as int) =~= rhs@);
        }
    }

    /// Removes every member of `rhs`: by deleting each of them when `rhs` is
    /// the smaller set, else by a retaining walk over `self`.
    pub fn sub_assign(&mut self, rhs: &SparSet)
        requires
            old(self).wf(),
            rhs.wf(),
        ensures
            final(self).wf(),
            final(self).slots() == old(self).slots(),
            final(self).keys() == old(self).keys() - rhs.keys(),
    {
        if rhs.len() < self.len() {
            self.delete_all(rhs.as_slice());
        } else {
            let f = |k: u16| -> (b: bool)
                requires
                    rhs.wf(),
                ensures
                    b == !rhs@.contains(k),
                { !rhs.contains(k) };
            self.retain(f);
            proof {
                assert(self.keys() =~= old(self).keys() - rhs.keys());
            }
        }
    }

    /// A set holding the keys of `xs`, with capacity the largest of them.
    pub fn from_slice(xs: &[u16]) -> (r: SparSet)
        requires
            xs@.len() > 0,
            inserted(Seq::empty(), xs@).len() <= MAX_K,
        ensures
            r.wf(),
            r@ == inserted(Seq::empty(), xs@),
            r.keys() == xs@.to_set(),
            forall|i: int| 0 <= i < xs@.len() ==> #[trigger] xs@[i] < r.slots(),
            exists|i: int| 0 <= i < xs@.len() && xs@[i] + 1 == r.slots(),
    {
        let mut m: u16 = xs[0];
        let mut i: usize = 1;
        while i < xs.len()
            invariant
                1 <= i <= xs@.len(),
                forall|j: int| 0 <= j < i ==> #[trigger] xs@[j] <= m,
                exists|j: int| 0 <= j < i && xs@[j] == m,
            decreases xs@.len() - i,
        {
            if xs[i] > m {
                m = xs[i];
            }
            i = i + 1;
        }
        let mut r = SparSet::new(m as usize);
        r.insert_all(xs);
        proof {
            assert(r.keys() =~= xs@.to_set());
        }
        r
    }

    /// Dense positions of the keys of `ks` that are members, in the order of `ks`.
    pub fn as_index_all(&self, ks: &[u16]) -> (r: Vec<u16>)
        requires
            self.wf(),
        ensures
            r@ == indices(self@, ks@),
    {
        let mut r: Vec<u16> = Vec::new();
        let mut i: usize = 0;
        while i < ks.len()
            invariant
                self.wf(),
                i <= ks@.len(),
                r@ == indices(self@, ks@.subrange(0, i as int)),
            decreases ks@.len() - i,
        {
            let k = ks[i];
            let ghost pre = ks@.subrange(0, i as int);
            let ghost post = ks@.subrange(0, i + 1);
            proof {
                assert(post.drop_last() =~= pre);
                assert(post.last() == k);
                self.lemma_keys();
            }
            match self.as_index_one(k) {
                Some(x) => {
                    proof {
                        assert(self@.contains(k));
                        assert(self@.index_of(k) == x as int);
                    }
                    r.push(x);
                },
                None => {},
            }
            i = i + 1;
        }
        proof {
            assert(ks@.subrange(0, ks@.len() as int) =~= ks@);
        }
        r
    }
}

/// Dense positions of the members among `ks`, in the order of `ks`.
pub open spec fn indices(s: Seq<u16>, ks: Seq<u16>) -> Seq<u16>
    decreases ks.len(),
{
    if ks.len() == 0 {
        Seq::empty()
    } else {
        let pre = indices(s, ks.drop_last());
        if s.contains(ks.last()) {
            pre.push(s.index_of(ks.last()) as u16)
        } else {
            pre
        }
    }
}

impl Default for SparSet {
    /// An empty set of the largest capacity.
    fn default() -> (r: SparSet)
        ensures
            r.wf(),
            r@ == Seq::<u16>::empty(),
            r.slots() == MAX_K + 1,
    {
        SparSet::new(MAX_K)
    }
}

/// Inserting a key that is absent and deleting it again leaves the member
/// sequence as it was, so membership and length are unchanged.
pub proof fn law_insert_delete_one(s: &SparSet, k: u16)
    requires
        s.wf(),
        !s@.contains(k),
    ensures
        swap_removed(inserted(s@, seq![k]), k) == s@,
        swap_removed(inserted(s@, seq![k]), k).len() == s@.len(),
{
    s.lemma_keys();
    assert(seq![k].drop_last() =~= Seq::<u16>::empty());
    assert(seq![k].last() == k);
    assert(inserted(s@, seq![k].drop_last()) == s@);
    let p = s@.push(k);
    assert(p[s@.len() as int] == k);
    assert(p.contains(k));
    assert(p.index_of(k) == s@.len()) by {
        let j = p.index_of(k);
        if j != s@.len() {
            assert(s@[j] == k);
        }
    }
    assert(p.update(s@.len() as int, p.last()).drop_last() =~= s@);
}

/// Laws of the set algebra on the member sets: intersection and union
/// commute, the sizes of union and intersection add up to the two sizes, a
/// difference shares nothing with what was subtracted, the symmetric
/// difference holds exactly the keys in one set only, and inclusion is an
/// intersection that loses nothing.
pub proof fn law_set_algebra(a: &SparSet, b: &SparSet)
    requires
        a.wf(),
        b.wf(),
    ensures
        a.keys().intersect(b.keys()) == b.keys().intersect(a.keys()),
        a.keys() + b.keys() == b.keys() + a.keys(),
        (a.keys() + b.keys()).len() + a.keys().intersect(b.keys()).len() == a@.len() + b@.len(),
        (a.keys() - b.keys()).intersect(b.keys()) == Set::<u16>::empty(),
        forall|x: u16| #[trigger]
            ((a.keys() - b.keys()) + (b.keys() - a.keys())).contains(x) <==> (a.keys().contains(x)
                != b.keys().contains(x)),
        a.keys().subset_of(b.keys()) <==> a.keys().intersect(b.keys()) == a.keys(),
{
    a.lemma_keys();
    b.lemma_keys();
    assert(a.keys().intersect(b.keys()) =~= b.keys().intersect(a.keys()));
    assert(a.keys() + b.keys() =~= b.keys() + a.keys());
    lemma_set_intersect_union_lens(a.keys(), b.keys());
    assert((a.keys() - b.keys()).intersect(b.keys()) =~= Set::<u16>::empty());
    if a.keys().subset_of(b.keys()) {
        assert(a.keys().intersect(b.keys()) =~= a.keys());
    }
}

} // verus!
