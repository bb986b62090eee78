//! `SparMap`: a map from small unsigned keys to copyable values, laid out as a
//! `SparSet` of keys beside a value buffer indexed by dense position.
use vstd::prelude::*;
use vstd::std_specs::cmp::PartialEqSpec;

use crate::set::{deleted, inserted, lemma_inserted_prefix, swap_removed, SparSet, MAX_K};

verus! {

/// The map whose entries pair `ks[i]` with `vs[i]`.
pub open spec fn pairs_map<V>(ks: Seq<u16>, vs: Seq<V>) -> Map<u16, V> {
    Map::new(|k: u16| ks.contains(k), |k: u16| vs[ks.index_of(k)])
}

proof fn lemma_pairs_at<V>(ks: Seq<u16>, vs: Seq<V>, i: int)
    requires
        ks.no_duplicates(),
        0 <= i < ks.len(),
    ensures
        pairs_map(ks, vs).contains_key(ks[i]),
        pairs_map(ks, vs)[ks[i]] == vs[i],
{
    assert(ks.contains(ks[i]));
    assert(ks.index_of(ks[i]) == i);
}

proof fn lemma_pairs_push<V>(ks: Seq<u16>, vs: Seq<V>, k: u16, v: V)
    requires
        ks.no_duplicates(),
        ks.len() == vs.len(),
        !ks.contains(k),
    ensures
        pairs_map(ks.push(k), vs.push(v)) == pairs_map(ks, vs).insert(k, v),
{
    let a = pairs_map(ks.push(k), vs.push(v));
    let b = pairs_map(ks, vs).insert(k, v);
    assert(ks.push(k).no_duplicates()) by {
        assert forall|i: int, j: int| 0 <= i < ks.len() + 1 && 0 <= j < ks.len() + 1 && i != j
            implies ks.push(k)[i] != ks.push(k)[j] by {
            if i == ks.len() {
                assert(ks.contains(ks[j]));
            }
            if j == ks.len() {
                assert(ks.contains(ks[i]));
            }
        }
    }
    assert forall|x: u16| a.contains_key(x) <==> b.contains_key(x) by {
        if ks.push(k).contains(x) && x != k {
            let j = choose|j: int| 0 <= j < ks.len() + 1 && ks.push(k)[j] == x;
            assert(ks[j] == x);
        }
        if ks.contains(x) {
            let j = choose|j: int| 0 <= j < ks.len() && ks[j] == x;
            assert(ks.push(k)[j] == x);
        }
        if x == k {
            assert(ks.push(k)[ks.len() as int] == k);
        }
    }
    assert forall|x: u16| a.contains_key(x) implies a[x] == b[x] by {
        let j = choose|j: int| 0 <= j < ks.len() + 1 && ks.push(k)[j] == x;
        lemma_pairs_at(ks.push(k), vs.push(v), j);
        if j < ks.len() {
            assert(ks[j] == x);
            lemma_pairs_at(ks, vs, j);
        }
    }
    assert(a =~= b);
}

proof fn lemma_pairs_update<V>(ks: Seq<u16>, vs: Seq<V>, i: int, v: V)
    requires
        ks.no_duplicates(),
        ks.len() == vs.len(),
        0 <= i < ks.len(),
    ensures
        pairs_map(ks, vs.update(i, v)) == pairs_map(ks, vs).insert(ks[i], v),
{
    let a = pairs_map(ks, vs.update(i, v));
    let b = pairs_map(ks, vs).insert(ks[i], v);
    assert forall|x: u16| a.contains_key(x) <==> b.contains_key(x) by {
        if x == ks[i] {
            assert(ks.contains(x));
        }
    }
    assert forall|x: u16| a.contains_key(x) implies a[x] == b[x] by {
        let j = choose|j: int| 0 <= j < ks.len() && ks[j] == x;
        lemma_pairs_at(ks, vs.update(i, v), j);
        lemma_pairs_at(ks, vs, j);
    }
    assert(a =~= b);
}

proof fn lemma_pairs_swap_remove<V>(ks: Seq<u16>, vs: Seq<V>, s: int)
    requires
        ks.no_duplicates(),
        ks.len() == vs.len(),
        0 <= s < ks.len(),
    ensures
        ks.update(s, ks.last()).drop_last().no_duplicates(),
        pairs_map(ks.update(s, ks.last()).drop_last(), vs.update(s, vs.last()).drop_last())
            == pairs_map(ks, vs).remove(ks[s]),
{
    let l = ks.len() - 1;
    let nk = ks.update(s, ks.last()).drop_last();
    let nv = vs.update(s, vs.last()).drop_last();
    assert forall|i: int, j: int| 0 <= i < nk.len() && 0 <= j < nk.len() && i != j implies nk[i]
        != nk[j] by {
        let oi = if i == s { l } else { i };
        let oj = if j == s { l } else { j };
        assert(nk[i] == ks[oi]);
        assert(nk[j] == ks[oj]);
    }
    let a = pairs_map(nk, nv);
    let b = pairs_map(ks, vs).remove(ks[s]);
    assert forall|x: u16| a.contains_key(x) <==> b.contains_key(x) by {
        if nk.contains(x) {
            let j = choose|j: int| 0 <= j < nk.len() && nk[j] == x;
            let oj = if j == s { l } else { j };
            assert(ks[oj] == x);
            assert(ks.contains(x));
        }
        if ks.contains(x) && x != ks[s] {
            let j = choose|j: int| 0 <= j < ks.len() && ks[j] == x;
            if j == l {
                assert(nk[s] == x);
            } else {
                assert(nk[j] == x);
            }
        }
    }
    assert forall|x: u16| a.contains_key(x) implies a[x] == b[x] by {
        let j = choose|j: int| 0 <= j < nk.len() && nk[j] == x;
        let oj = if j == s { l } else { j };
        lemma_pairs_at(nk, nv, j);
        lemma_pairs_at(ks, vs, oj);
    }
    assert(a =~= b);
}

/// The keys of a sequence of pairs.
pub open spec fn pair_keys<V>(kvs: Seq<(u16, V)>) -> Seq<u16> {
    kvs.map_values(|p: (u16, V)| p.0)
}

/// `m` after each pair of `kvs` is written in turn.
pub open spec fn with_pairs<V>(m: Map<u16, V>, kvs: Seq<(u16, V)>) -> Map<u16, V>
    decreases kvs.len(),
{
    if kvs.len() == 0 {
        m
    } else {
        with_pairs(m, kvs.drop_last()).insert(kvs.last().0, kvs.last().1)
    }
}

/// The values that `m` holds for the keys of `ks`, skipping absent keys.
pub open spec fn values_of<V>(m: Map<u16, V>, ks: Seq<u16>) -> Seq<V>
    decreases ks.len(),
{
    if ks.len() == 0 {
        Seq::empty()
    } else {
        let pre = values_of(m, ks.drop_last());
        if m.contains_key(ks.last()) {
            pre.push(m[ks.last()])
        } else {
            pre
        }
    }
}

/// The keys written by `with_pairs` are the keys of the pairs.
proof fn lemma_with_pairs_dom<V>(m: Map<u16, V>, kvs: Seq<(u16, V)>)
    ensures
        with_pairs(m, kvs).dom() == m.dom() + pair_keys(kvs).to_set(),
    decreases kvs.len(),
{
    if kvs.len() == 0 {
        assert(pair_keys(kvs).to_set() =~= Set::<u16>::empty());
        assert(m.dom() + Set::<u16>::empty() =~= m.dom());
    } else {
        lemma_with_pairs_dom(m, kvs.drop_last());
        assert(pair_keys(kvs) =~= pair_keys(kvs.drop_last()).push(kvs.last().0));
        pair_keys(kvs.drop_last()).lemma_push_to_set_commute(kvs.last().0);
        assert(with_pairs(m, kvs).dom() =~= m.dom() + pair_keys(kvs).to_set());
    }
}

/// `vals` are the values that `before` holds for the keys `ks`, one per key,
/// and `ks` are exactly the keys of `before` that `after` lacks.
pub open spec fn recalled_by<V>(before: Map<u16, V>, after: Map<u16, V>, vals: Seq<V>, ks: Seq<u16>) -> bool {
    &&& ks.no_duplicates()
    &&& ks.len() == vals.len()
    &&& forall|x: u16| #[trigger] ks.contains(x) <==> (before.contains_key(x) && !after.contains_key(x))
    &&& forall|i: int| 0 <= i < ks.len() ==> vals[i] == before[#[trigger] ks[i]]
}

/// `v` is the value of a key that `before` holds and `after` does not.
pub open spec fn removed_value<V>(before: Map<u16, V>, after: Map<u16, V>, v: V) -> bool {
    exists|k: u16| before.contains_key(k) && !after.contains_key(k) && before[k] == v
}

/// A map whose keys `k <= N` are held by a `SparSet`; the value of the member
/// at dense position `i` is `vals[i]`, so `vals` stays packed like the keys.
#[derive(Clone)]
pub struct SparMap<V> {
    keys: SparSet,
    vals: Vec<V>,
}

impl<V: Copy> SparMap<V> {
    /// The keys in dense order.
    pub closed spec fn key_seq(&self) -> Seq<u16> {
        self.keys@
    }

    /// The values in dense order, one for each key.
    pub closed spec fn val_seq(&self) -> Seq<V> {
        self.vals@
    }

    /// Number of key slots (capacity plus one).
    pub closed spec fn slots(&self) -> nat {
        self.keys.slots()
    }

    /// The entries as a map.
    pub open spec fn entries(&self) -> Map<u16, V> {
        pairs_map(self.key_seq(), self.val_seq())
    }

    /// Layout invariant.
    pub closed spec fn wf(&self) -> bool {
        &&& self.keys.wf()
        &&& self.keys@.len() == self.vals@.len()
    }

    /// Keys are distinct and each has its value at the same dense position.
    pub proof fn lemma_entries(&self)
        requires
            self.wf(),
        ensures
            self.key_seq().no_duplicates(),
            self.key_seq().len() == self.val_seq().len(),
            self.key_seq().len() <= self.slots(),
            self.slots() <= MAX_K + 1,
            self.entries().dom() == self.key_seq().to_set(),
            self.entries().dom().finite(),
            self.entries().dom().len() == self.key_seq().len(),
            forall|i: int|
                0 <= i < self.key_seq().len() ==> #[trigger] self.entries()[self.key_seq()[i]]
                    == self.val_seq()[i],
    {
        self.keys.lemma_keys();
        assert forall|i: int| 0 <= i < self.key_seq().len() implies #[trigger] self.entries()[
            self.key_seq()[i]] == self.val_seq()[i] by {
            lemma_pairs_at(self.key_seq(), self.val_seq(), i);
        }
        assert(self.entries().dom() =~= self.key_seq().to_set());
    }

    /// Creates an empty map whose keys may range over `0..=N`.
    #[allow(non_snake_case)]
    pub fn new(N: usize) -> (r: SparMap<V>)
        requires
            N <= MAX_K,
        ensures
            r.wf(),
            r.key_seq() == Seq::<u16>::empty(),
            r.entries() == Map::<u16, V>::empty(),
            r.slots() == N + 1,
    {
        let r = SparMap { keys: SparSet::new(N), vals: Vec::new() };
        proof {
            assert(r.entries() =~= Map::<u16, V>::empty());
        }
        r
    }

    /// Number of entries.
    pub fn len(&self) -> (r: u16)
        requires
            self.wf(),
        ensures
            r == self.key_seq().len(),
    {
        self.keys.len()
    }

    /// Whether the map has no entry.
    pub fn is_empty(&self) -> (r: bool)
        requires
            self.wf(),
        ensures
            r == (self.key_seq().len() == 0),
    {
        self.keys.is_empty()
    }

    /// The keys in dense order.
    pub fn as_keys(&self) -> (r: &[u16])
        requires
            self.wf(),
        ensures
            r@ == self.key_seq(),
    {
        self.keys.as_slice()
    }

    /// The key set.
    pub fn as_keys_set(&self) -> (r: &SparSet)
        requires
            self.wf(),
        ensures
            r.wf(),
            r@ == self.key_seq(),
    {
        &self.keys
    }

    /// The values in dense order.
    pub fn as_vals(&self) -> (r: &[V])
        requires
            self.wf(),
        ensures
            r@ == self.val_seq(),
    {
        self.vals.as_slice()
    }

    /// Whether `k` has an entry.
    pub fn contains(&self, k: u16) -> (r: bool)
        requires
            self.wf(),
        ensures
            r == self.entries().contains_key(k),
    {
        self.keys.contains(k)
    }

    /// The value of `k`, if it has an entry.
    pub fn query_one(&self, k: u16) -> (r: Option<&V>)
        requires
            self.wf(),
        ensures
            match r {
                Some(v) => self.entries().contains_key(k) && *v == self.entries()[k],
                None => !self.entries().contains_key(k),
            },
    {
        proof {
            self.lemma_entries();
        }
        match self.keys.as_index_one(k) {
            Some(i) => {
                proof {
                    assert(self.entries()[self.key_seq()[i as int]] == self.val_seq()[i as int]);
                }
                Some(&self.vals[i as usize])
            },
            None => None,
        }
    }

    /// The value of `k`; `k` must have an entry.
    pub fn index(&self, k: u16) -> (r: &V)
        requires
            self.wf(),
            self.entries().contains_key(k),
        ensures
            *r == self.entries()[k],
    {
        match self.query_one(k) {
            Some(v) => v,
            None => {
                proof {
                    assert(false);
                }
                &self.vals[0]
            },
        }
    }

    /// Sets the value of `k`; returns the value it replaced, if any. A new key
    /// goes last.
    pub fn insert_one(&mut self, k: u16, v: V) -> (r: Option<V>)
        requires
            old(self).wf(),
            k < old(self).slots(),
            old(self).key_seq().len() < MAX_K || old(self).entries().contains_key(k),
        ensures
            final(self).wf(),
            final(self).slots() == old(self).slots(),
            r == (if old(self).entries().contains_key(k) {
                Some(old(self).entries()[k])
            } else {
                None
            }),
            final(self).key_seq() == inserted(old(self).key_seq(), seq![k]),
            final(self).entries() == old(self).entries().insert(k, v),
            old(self).entries().contains_key(k) ==> final(self).val_seq() == old(self).val_seq().update(old(self).key_seq().index_of(k), v),
            !old(self).entries().contains_key(k) ==> final(self).val_seq() == old(self).val_seq().push(v),
    {
        proof {
            self.lemma_entries();
        }
        match self.keys.as_index_one(k) {
            Some(i) => {
                let prev = self.vals[i as usize];
                proof {
                    assert(old(self).key_seq().index_of(k) == i as int);
                    assert(old(self).entries()[old(self).key_seq()[i as int]] == prev);
                    lemma_pairs_update(old(self).key_seq(), old(self).val_seq(), i as int, v);
                }
                self.vals.set(i as usize, v);
                proof {
                    assert(seq![k].drop_last() =~= Seq::<u16>::empty());
                    assert(seq![k].last() == k);
                    assert(inserted(old(self).key_seq(), seq![k].drop_last()) == old(self).key_seq());
                }
                Some(prev)
            },
            None => {
                self.keys.insert_one(k);
                self.vals.push(v);
                proof {
                    assert(seq![k].drop_last() =~= Seq::<u16>::empty());
                    assert(seq![k].last() == k);
                    assert(inserted(old(self).key_seq(), seq![k].drop_last()) == old(self).key_seq());
                    lemma_pairs_push(old(self).key_seq(), old(self).val_seq(), k, v);
                }
                None
            },
        }
    }

    /// Removes `k`; returns its value if it had an entry. The last entry takes
    /// the dense position of `k`.
    pub fn delete_one(&mut self, k: u16) -> (r: Option<V>)
        requires
            old(self).wf(),
        ensures
            final(self).wf(),
            final(self).slots() == old(self).slots(),
            r == (if old(self).entries().contains_key(k) {
                Some(old(self).entries()[k])
            } else {
                None
            }),
            final(self).key_seq() == swap_removed(old(self).key_seq(), k),
            final(self).entries() == old(self).entries().remove(k),
            old(self).entries().contains_key(k) ==> final(self).val_seq() == old(self).val_seq().update(old(self).key_seq().index_of(k), old(self).val_seq().last()).drop_last(),
            !old(self).entries().contains_key(k) ==> final(self).val_seq() == old(self).val_seq(),
    {
        proof {
            self.lemma_entries();
        }
        match self.keys.as_index_one(k) {
            Some(i) => {
                let prev = self.vals[i as usize];
                proof {
                    assert(old(self).key_seq().index_of(k) == i as int);
                    assert(old(self).entries()[old(self).key_seq()[i as int]] == prev);
                    lemma_pairs_swap_remove(old(self).key_seq(), old(self).val_seq(), i as int);
                }
                self.keys.delete_one(k);
                let l = self.keys.len() as usize;
                let last = self.vals[l];
                self.vals.set(i as usize, last);
                self.vals.pop();
                proof {
                    assert(self.val_seq() =~= old(self).val_seq().update(
                        i as int,
                        old(self).val_seq().last(),
                    ).drop_last());
                }
                Some(prev)
            },
            None => {
                proof {
                    assert(old(self).entries().remove(k) =~= old(self).entries());
                }
                None
            },
        }
    }

    /// Writes each pair of `kvs` in turn.
    pub fn insert_all(&mut self, kvs: &[(u16, V)])
        requires
            old(self).wf(),
            forall|i: int| 0 <= i < kvs@.len() ==> #[trigger] kvs@[i].0 < old(self).slots(),
            inserted(old(self).key_seq(), pair_keys(kvs@)).len() <= MAX_K,
        ensures
            final(self).wf(),
            final(self).slots() == old(self).slots(),
            final(self).key_seq() == inserted(old(self).key_seq(), pair_keys(kvs@)),
            final(self).entries() == with_pairs(old(self).entries(), kvs@),
    {
        let mut i: usize = 0;
        while i < kvs.len()
            invariant
                self.wf(),
                self.slots() == old(self).slots(),
                i <= kvs@.len(),
                forall|j: int| 0 <= j < kvs@.len() ==> #[trigger] kvs@[j].0 < old(self).slots(),
                inserted(old(self).key_seq(), pair_keys(kvs@)).len() <= MAX_K,
                self.key_seq() == inserted(
                    old(self).key_seq(),
                    pair_keys(kvs@.subrange(0, i as int)),
                ),
                self.entries() == with_pairs(old(self).entries(), kvs@.subrange(0, i as int)),
            decreases kvs@.len() - i,
        {
            let (k, v) = kvs[i];
            let ghost pre = kvs@.subrange(0, i as int);
            let ghost post = kvs@.subrange(0, i + 1);
            let ghost before = self.key_seq();
            proof {
                assert(post.drop_last() =~= pre);
                assert(post.last() == (k, v));
                assert(pair_keys(post) =~= pair_keys(kvs@).subrange(0, i + 1));
                assert(pair_keys(post).drop_last() =~= pair_keys(pre));
                assert(pair_keys(post).last() == k);
                lemma_inserted_prefix(old(self).key_seq(), pair_keys(kvs@), i + 1);
                self.lemma_entries();
            }
            self.insert_one(k, v);
            proof {
                assert(seq![k].drop_last() =~= Seq::<u16>::empty());
                assert(seq![k].last() == k);
                assert(inserted(before, seq![k].drop_last()) == before);
            }
            i = i + 1;
        }
        proof {
            assert(kvs@.subrange(0, kvs@.len() as int) =~= kvs@);
        }
    }

    /// Deletes each key of `ks` in turn.
    pub fn delete_all(&mut self, ks: &[u16])
        requires
            old(self).wf(),
        ensures
            final(self).wf(),
            final(self).slots() == old(self).slots(),
            final(self).key_seq() == deleted(old(self).key_seq(), ks@),
            final(self).entries() == old(self).entries().remove_keys(ks@.to_set()),
    {
        let mut i: usize = 0;
        while i < ks.len()
            invariant
                self.wf(),
                self.slots() == old(self).slots(),
                i <= ks@.len(),
                self.key_seq() == deleted(old(self).key_seq(), ks@.subrange(0, i as int)),
                self.entries() == old(self).entries().remove_keys(
                    ks@.subrange(0, i as int).to_set(),
                ),
            decreases ks@.len() - i,
        {
            let k = ks[i];
            self.delete_one(k);
            proof {
                let p = ks@.subrange(0, i + 1);
                assert(p.drop_last() =~= ks@.subrange(0, i as int));
                assert(p.last() == k);
                assert(p =~= ks@.subrange(0, i as int).push(k));
                ks@.subrange(0, i as int).lemma_push_to_set_commute(k);
                assert(self.entries() =~= old(self).entries().remove_keys(p.to_set()));
            }
            i = i + 1;
        }
        proof {
            assert(ks@.subrange(0, ks@.len() as int) =~= ks@);
        }
    }

    /// The values of the keys of `ks` that have an entry, in the order of `ks`.
    pub fn query_all(&self, ks: &[u16]) -> (r: Vec<V>)
        requires
            self.wf(),
        ensures
            r@ == values_of(self.entries(), ks@),
    {
        let mut r: Vec<V> = Vec::new();
        let mut i: usize = 0;
        while i < ks.len()
            invariant
                self.wf(),
                i <= ks@.len(),
                r@ == values_of(self.entries(), ks@.subrange(0, i as int)),
            decreases ks@.len() - i,
        {
            let k = ks[i];
            proof {
                let p = ks@.subrange(0, i + 1);
                assert(p.drop_last() =~= ks@.subrange(0, i as int));
                assert(p.last() == k);
            }
            match self.query_one(k) {
                Some(v) => r.push(*v),
                None => {},
            }
            i = i + 1;
        }
        proof {
            assert(ks@.subrange(0, ks@.len() as int) =~= ks@);
        }
        r
    }

    /// The entries as `(key, value)` pairs in dense order.
    pub fn iter(&self) -> (r: Vec<(u16, V)>)
        requires
            self.wf(),
        ensures
            r@.len() == self.key_seq().len(),
            forall|i: int|
                0 <= i < r@.len() ==> #[trigger] r@[i] == (self.key_seq()[i], self.val_seq()[i]),
    {
        let ks = self.keys.as_slice();
        let mut r: Vec<(u16, V)> = Vec::new();
        let mut i: usize = 0;
        while i < ks.len()
            invariant
                self.wf(),
                ks@ == self.key_seq(),
                i <= ks@.len(),
                r@.len() == i,
                forall|j: int|
                    0 <= j < i ==> #[trigger] r@[j] == (self.key_seq()[j], self.val_seq()[j]),
            decreases ks@.len() - i,
        {
            r.push((ks[i], self.vals[i]));
            i = i + 1;
        }
        r
    }

    /// Keeps the entries on which `f` holds, walking the dense order and
    /// swap-removing the others in place.
    pub fn retain<F: Fn(u16, V) -> bool>(&mut self, f: F)
        requires
            old(self).wf(),
            forall|k: u16, v: V| #[trigger] f.requires((k, v)),
        ensures
            final(self).wf(),
            final(self).slots() == old(self).slots(),
            final(self).entries().dom().subset_of(old(self).entries().dom()),
            forall|k: u16| #[trigger]
                final(self).entries().contains_key(k) ==> final(self).entries()[k] == old(self).entries()[k] && f.ensures((k, old(self).entries()[k]), true),
            forall|k: u16|
                old(self).entries().contains_key(k) && !(#[trigger] final(self).entries().contains_key(k)) ==> f.ensures((k, old(self).entries()[k]), false),
            (forall|k: u16, v: V, b: bool| #[trigger] f.ensures((k, v), b) ==> b) ==> final(self).key_seq() == old(self).key_seq() && final(self).val_seq() == old(self).val_seq(),
            (forall|k: u16, v: V, b: bool| #[trigger] f.ensures((k, v), b) ==> !b) ==> final(self).key_seq().len() == 0,
    {
        let mut i: usize = 0;
        while i < self.keys.len() as usize
            invariant
                self.wf(),
                self.slots() == old(self).slots(),
                i <= self.key_seq().len(),
                forall|k: u16, v: V| #[trigger] f.requires((k, v)),
                self.entries().dom().subset_of(old(self).entries().dom()),
                forall|k: u16| #[trigger]
                    self.entries().contains_key(k) ==> self.entries()[k] == old(self).entries()[k],
                forall|j: int|
                    0 <= j < i ==> f.ensures(
                        (#[trigger] self.key_seq()[j], self.val_seq()[j]),
                        true,
                    ),
                forall|k: u16|
                    old(self).entries().contains_key(k) && !(#[trigger] self.entries().contains_key(
                        k,
                    )) ==> f.ensures((k, old(self).entries()[k]), false),
                (forall|k: u16, v: V, b: bool| #[trigger] f.ensures((k, v), b) ==> b) ==> self.key_seq()
                    == old(self).key_seq() && self.val_seq() == old(self).val_seq(),
            decreases self.key_seq().len() - i,
        {
            proof {
                self.lemma_entries();
            }
            let k = self.keys.as_slice()[i];
            let v = self.vals[i];
            let keep = f(k, v);
            if keep {
                i = i + 1;
            } else {
                let ghost prev = *self;
                proof {
                    assert(prev.entries()[prev.key_seq()[i as int]] == prev.val_seq()[i as int]);
                    assert(prev.key_seq().contains(k));
                    assert(prev.key_seq().index_of(k) == i as int);
                }
                self.delete_one(k);
                proof {
                    assert forall|j: int| 0 <= j < i implies f.ensures(
                        (#[trigger] self.key_seq()[j], self.val_seq()[j]),
                        true,
                    ) by {
                        assert(self.key_seq()[j] == prev.key_seq()[j]);
                        assert(self.val_seq()[j] == prev.val_seq()[j]);
                    }
                }
            }
        }
        proof {
            self.lemma_entries();
            assert forall|k: u16| #[trigger] self.entries().contains_key(k) implies f.ensures(
                (k, old(self).entries()[k]),
                true,
            ) by {
                let j = choose|j: int| 0 <= j < self.key_seq().len() && self.key_seq()[j] == k;
                assert(self.entries()[self.key_seq()[j]] == self.val_seq()[j]);
            }
            if self.key_seq().len() > 0 {
                assert(f.ensures((self.key_seq()[0], self.val_seq()[0]), true));
            }
        }
    }

    /// Removes the entries on which `f` holds and returns their values in the
    /// order they were removed.
    pub fn recall<F: Fn(u16, V) -> bool>(&mut self, f: F) -> (r: Vec<V>)
        requires
            old(self).wf(),
            forall|k: u16, v: V| #[trigger] f.requires((k, v)),
        ensures
            final(self).wf(),
            final(self).slots() == old(self).slots(),
            final(self).entries().dom().subset_of(old(self).entries().dom()),
            r@.len() == old(self).key_seq().len() - final(self).key_seq().len(),
            forall|k: u16| #[trigger]
                final(self).entries().contains_key(k) ==> final(self).entries()[k] == old(self).entries()[k] && f.ensures((k, old(self).entries()[k]), false),
            forall|k: u16|
                old(self).entries().contains_key(k) && !(#[trigger] final(self).entries().contains_key(k)) ==> f.ensures((k, old(self).entries()[k]), true),
            forall|i: int|
                0 <= i < r@.len() ==> removed_value(
                    old(self).entries(),
                    final(self).entries(),
                    #[trigger] r@[i],
                ),
            exists|ks: Seq<u16>| #[trigger] recalled_by(old(self).entries(), final(self).entries(), r@, ks),
            (forall|k: u16, v: V, b: bool| #[trigger] f.ensures((k, v), b) ==> !b) ==> final(self).key_seq() == old(self).key_seq() && final(self).val_seq() == old(self).val_seq(),
            (forall|k: u16, v: V, b: bool| #[trigger] f.ensures((k, v), b) ==> b) ==> final(self).key_seq().len() == 0,
    {
        let mut out: Vec<V> = Vec::new();
        let ghost mut ks: Seq<u16> = Seq::empty();
        let mut i: usize = 0;
        while i < self.keys.len() as usize
            invariant
                self.wf(),
                self.slots() == old(self).slots(),
                i <= self.key_seq().len(),
                forall|k: u16, v: V| #[trigger] f.requires((k, v)),
                self.entries().dom().subset_of(old(self).entries().dom()),
                out@.len() == old(self).key_seq().len() - self.key_seq().len(),
                recalled_by(old(self).entries(), self.entries(), out@, ks),
                forall|k: u16| #[trigger]
                    self.entries().contains_key(k) ==> self.entries()[k] == old(self).entries()[k],
                forall|j: int|
                    0 <= j < i ==> f.ensures(
                        (#[trigger] self.key_seq()[j], self.val_seq()[j]),
                        false,
                    ),
                forall|k: u16|
                    old(self).entries().contains_key(k) && !(#[trigger] self.entries().contains_key(
                        k,
                    )) ==> f.ensures((k, old(self).entries()[k]), true),
                forall|j: int|
                    0 <= j < out@.len() ==> removed_value(
                        old(self).entries(),
                        self.entries(),
                        #[trigger] out@[j],
                    ),
                (forall|k: u16, v: V, b: bool| #[trigger] f.ensures((k, v), b) ==> !b) ==> self.key_seq()
                    == old(self).key_seq() && self.val_seq() == old(self).val_seq(),
            decreases self.key_seq().len() - i,
        {
            proof {
                self.lemma_entries();
            }
            let k = self.keys.as_slice()[i];
            let v = self.vals[i];
            let take = f(k, v);
            if !take {
                i = i + 1;
            } else {
                let ghost prev = *self;
                let ghost prev_out = out@;
                proof {
                    assert(prev.entries()[prev.key_seq()[i as int]] == prev.val_seq()[i as int]);
                    assert(prev.key_seq().contains(k));
                    assert(prev.key_seq().index_of(k) == i as int);
                }
                self.delete_one(k);
                out.push(v);
                proof {
                    let pks = ks;
                    assert(!pks.contains(k));
                    ks = pks.push(k);
                    assert(prev.entries().contains_key(k));
                    assert(prev.entries()[k] == old(self).entries()[k]);
                    assert forall|a: int, b: int| 0 <= a < ks.len() && 0 <= b < ks.len() && a != b implies ks[a] != ks[b] by {
                        if a == pks.len() {
                            assert(pks.contains(ks[b]));
                        } else if b == pks.len() {
                            assert(pks.contains(ks[a]));
                        }
                    }
                    assert forall|x: u16| #[trigger] ks.contains(x) <==> (old(self).entries().contains_key(x)
                        && !self.entries().contains_key(x)) by {
                        if x != k {
                            if ks.contains(x) {
                                let q = choose|q: int| 0 <= q < ks.len() && ks[q] == x;
                                assert(pks[q] == x);
                                assert(pks.contains(x));
                            }
                            if pks.contains(x) {
                                let q = choose|q: int| 0 <= q < pks.len() && pks[q] == x;
                                assert(ks[q] == x);
                            }
                        } else {
                            assert(ks[ks.len() - 1] == k);
                        }
                    }
                    assert forall|q: int| 0 <= q < ks.len() implies out@[q] == old(self).entries()[#[trigger] ks[q]] by {
                        if q < pks.len() {
                            assert(out@[q] == prev_out[q]);
                            assert(ks[q] == pks[q]);
                        }
                    }
                    assert(recalled_by(old(self).entries(), self.entries(), out@, ks));
                    self.lemma_entries();
                    assert forall|j: int| 0 <= j < i implies f.ensures(
                        (#[trigger] self.key_seq()[j], self.val_seq()[j]),
                        false,
                    ) by {
                        assert(self.key_seq()[j] == prev.key_seq()[j]);
                        assert(self.val_seq()[j] == prev.val_seq()[j]);
                    }
                    assert forall|j: int| 0 <= j < out@.len() implies removed_value(
                        old(self).entries(),
                        self.entries(),
                        #[trigger] out@[j],
                    ) by {
                        if j < prev_out.len() {
                            assert(out@[j] == prev_out[j]);
                            assert(removed_value(old(self).entries(), prev.entries(), prev_out[j]));
                            let x = choose|x: u16|
                                old(self).entries().contains_key(x) && !prev.entries().contains_key(
                                    x,
                                ) && old(self).entries()[x] == prev_out[j];
                            assert(!self.entries().contains_key(x));
                        } else {
                            assert(out@[j] == v);
                            assert(prev.entries().contains_key(k));
                            assert(prev.entries()[k] == old(self).entries()[k]);
                            assert(!self.entries().contains_key(k));
                        }
                    }
                }
            }
        }
        proof {
            self.lemma_entries();
            assert forall|k: u16| #[trigger] self.entries().contains_key(k) implies f.ensures(
                (k, old(self).entries()[k]),
                false,
            ) by {
                let j = choose|j: int| 0 <= j < self.key_seq().len() && self.key_seq()[j] == k;
                assert(self.entries()[self.key_seq()[j]] == self.val_seq()[j]);
            }
            if self.key_seq().len() > 0 {
                assert(f.ensures((self.key_seq()[0], self.val_seq()[0]), false));
            }
        }
        proof {
            assert(recalled_by(old(self).entries(), self.entries(), out@, ks));
        }
        out
    }

    /// The value of `k` for writing, if it has an entry.
    pub fn query_one_mut(&mut self, k: u16) -> (r: Option<&mut V>)
        requires
            old(self).wf(),
        ensures
            final(self).wf(),
            final(self).slots() == old(self).slots(),
            final(self).key_seq() == old(self).key_seq(),
            match r {
                Some(v) => {
                    &&& old(self).entries().contains_key(k)
                    &&& *v == old(self).entries()[k]
                    &&& final(self).entries() == old(self).entries().insert(k, *final(v))
                },
                None => {
                    &&& !old(self).entries().contains_key(k)
                    &&& final(self).entries() == old(self).entries()
                },
            },
    {
        proof {
            self.lemma_entries();
        }
        match self.keys.as_index_one(k) {
            Some(i) => {
                proof {
                    assert(old(self).key_seq().index_of(k) == i as int);
                    assert(old(self).entries()[old(self).key_seq()[i as int]] == old(
                        self,
                    ).val_seq()[i as int]);
                    assert forall|w: V| #[trigger] pairs_map(old(self).key_seq(), old(
                        self,
                    ).val_seq().update(i as int, w)) == old(self).entries().insert(k, w) by {
                        lemma_pairs_update(old(self).key_seq(), old(self).val_seq(), i as int, w);
                    }
                }
                Some(&mut self.vals[i as usize])
            },
            None => None,
        }
    }

    /// The values in dense order, for writing in place.
    pub fn as_vals_mut(&mut self) -> (r: &mut [V])
        requires
            old(self).wf(),
        ensures
            r@ == old(self).val_seq(),
            final(self).slots() == old(self).slots(),
            final(self).key_seq() == old(self).key_seq(),
            final(self).val_seq() == final(r)@,
            final(r)@.len() == r@.len() ==> final(self).wf(),
    {
        self.vals.as_mut_slice()
    }

    /// A map holding the pairs of `kvs`, later pairs overwriting earlier ones,
    /// with capacity the largest key.
    pub fn from_pairs(kvs: &[(u16, V)]) -> (r: SparMap<V>)
        requires
            kvs@.len() > 0,
            inserted(Seq::empty(), pair_keys(kvs@)).len() <= MAX_K,
        ensures
            r.wf(),
            r.key_seq() == inserted(Seq::empty(), pair_keys(kvs@)),
            r.entries() == with_pairs(Map::empty(), kvs@),
            forall|i: int| 0 <= i < kvs@.len() ==> #[trigger] kvs@[i].0 < r.slots(),
            exists|i: int| 0 <= i < kvs@.len() && kvs@[i].0 + 1 == r.slots(),
    {
        let mut m: u16 = kvs[0].0;
        let mut i: usize = 1;
        while i < kvs.len()
            invariant
                1 <= i <= kvs@.len(),
                forall|j: int| 0 <= j < i ==> #[trigger] kvs@[j].0 <= m,
                exists|j: int| 0 <= j < i && kvs@[j].0 == m,
            decreases kvs@.len() - i,
        {
            if kvs[i].0 > m {
                m = kvs[i].0;
            }
            i = i + 1;
        }
        let mut r = SparMap::new(m as usize);
        r.insert_all(kvs);
        r
    }

    /// The map made of the key set `keys` and the values `vals`, one for each
    /// key in dense order; none when the lengths differ.
    pub fn from_raw(keys: SparSet, vals: Vec<V>) -> (r: Option<SparMap<V>>)
        requires
            keys.wf(),
        ensures
            r is Some <==> vals@.len() == keys@.len(),
            r matches Some(m) ==> m.wf() && m.key_seq() == keys@ && m.val_seq() == vals@ && m.slots()
                == keys.slots(),
    {
        proof {
            keys.lemma_keys();
        }
        if vals.len() != keys.len() as usize {
            return None;
        }
        Some(SparMap { keys, vals })
    }

    /// The key set and the values in dense order.
    pub fn raw_parts(&self) -> (r: (&SparSet, &[V]))
        requires
            self.wf(),
        ensures
            r.0.wf(),
            r.0@ == self.key_seq(),
            r.0.slots() == self.slots(),
            r.1@ == self.val_seq(),
    {
        (&self.keys, self.vals.as_slice())
    }

    /// Removes every entry.
    pub fn clear(&mut self)
        requires
            old(self).wf(),
        ensures
            final(self).wf(),
            final(self).slots() == old(self).slots(),
            final(self).key_seq() == Seq::<u16>::empty(),
            final(self).entries() == Map::<u16, V>::empty(),
    {
        self.keys.clear();
        self.vals.clear();
        proof {
            assert(self.entries() =~= Map::<u16, V>::empty());
        }
    }
}

impl<V: Copy + PartialEq> SparMap<V> {
    /// Map equality: the same length, and every entry of `self` found in
    /// `other` with an equal value.
    pub fn eq(&self, other: &SparMap<V>) -> (r: bool)
        requires
            self.wf(),
            other.wf(),
            V::obeys_eq_spec(),
        ensures
            r == (self.entries().dom() == other.entries().dom() && forall|k: u16|
                #[trigger] self.entries().contains_key(k) ==> self.entries()[k].eq_spec(
                    &other.entries()[k],
                )),
    {
        proof {
            self.lemma_entries();
            other.lemma_entries();
        }
        if self.len() != other.len() {
            proof {
                if self.entries().dom() == other.entries().dom() {
                    assert(self.key_seq().len() == other.key_seq().len());
                }
            }
            return false;
        }
        let ks = self.keys.as_slice();
        let mut i: usize = 0;
        while i < ks.len()
            invariant
                self.wf(),
                other.wf(),
                V::obeys_eq_spec(),
                ks@ == self.key_seq(),
                i <= ks@.len(),
                self.key_seq().len() == other.key_seq().len(),
                forall|j: int|
                    0 <= j < i ==> other.entries().contains_key(#[trigger] ks@[j])
                        && self.entries()[ks@[j]].eq_spec(&other.entries()[ks@[j]]),
            decreases ks@.len() - i,
        {
            proof {
                self.lemma_entries();
            }
            let k = ks[i];
            let v = self.vals[i];
            match other.query_one(k) {
                Some(w) => {
                    if !v.eq(w) {
                        proof {
                            assert(self.entries()[self.key_seq()[i as int]] == v);
                            assert(self.entries().contains_key(k));
                        }
                        return false;
                    }
                    proof {
                        assert(self.entries()[self.key_seq()[i as int]] == v);
                    }
                },
                None => {
                    proof {
                        assert(self.entries().contains_key(k));
                    }
                    return false;
                },
            }
            i = i + 1;
        }
        proof {
            self.lemma_entries();
            other.lemma_entries();
            assert(self.entries().dom().subset_of(other.entries().dom())) by {
                assert forall|k: u16| self.entries().contains_key(k) implies other.entries().contains_key(k) by {
                    let j = choose|j: int| 0 <= j < ks@.len() && ks@[j] == k;
                }
            }
            vstd::set_lib::lemma_subset_equality(self.entries().dom(), other.entries().dom());
            assert forall|k: u16| #[trigger] self.entries().contains_key(k) implies self.entries()[k].eq_spec(
                &other.entries()[k],
            ) by {
                let j = choose|j: int| 0 <= j < ks@.len() && ks@[j] == k;
            }
        }
        true
    }
}

impl<V: Copy> Default for SparMap<V> {
    /// An empty map of the largest capacity.
    fn default() -> (r: SparMap<V>)
        ensures
            r.wf(),
            r.key_seq() == Seq::<u16>::empty(),
            r.slots() == MAX_K + 1,
    {
        SparMap::new(MAX_K)
    }
}

/// Writing a key twice keeps the second value, and the second write finds the
/// first value in place.
pub proof fn law_insert_twice<V: Copy>(m: &SparMap<V>, k: u16, v: V, w: V)
    requires
        m.wf(),
    ensures
        m.entries().insert(k, v).contains_key(k),
        m.entries().insert(k, v)[k] == v,
        m.entries().insert(k, v).insert(k, w).contains_key(k),
        m.entries().insert(k, v).insert(k, w)[k] == w,
{
}

/// Writing pairs into an empty map and then deleting their keys, once or
/// twice, leaves no entry.
pub proof fn law_insert_all_delete_all<V>(kvs: Seq<(u16, V)>)
    ensures
        with_pairs(Map::<u16, V>::empty(), kvs).remove_keys(pair_keys(kvs).to_set()) == Map::<
            u16,
            V,
        >::empty(),
        with_pairs(Map::<u16, V>::empty(), kvs).remove_keys(pair_keys(kvs).to_set()).remove_keys(
            pair_keys(kvs).to_set(),
        ) == Map::<u16, V>::empty(),
{
    lemma_with_pairs_dom(Map::<u16, V>::empty(), kvs);
    let once = with_pairs(Map::<u16, V>::empty(), kvs).remove_keys(pair_keys(kvs).to_set());
    assert(once =~= Map::<u16, V>::empty());
    assert(once.remove_keys(pair_keys(kvs).to_set()) =~= Map::<u16, V>::empty());
}

} // verus!
